use vstd::prelude::*;

verus! {

/// The Unicode `White_Space` property (Unicode PropList.txt): tab, line
/// feed, vertical tab, form feed, carriage return, space, next line,
/// no-break space, ogham space mark, the spaces U+2000 to U+200A, line and
/// paragraph separators, narrow no-break space, medium mathematical space
/// and ideographic space.
pub open spec fn unicode_white_space(c: char) -> bool {
    let u = c as int;
    ||| 0x9 <= u <= 0xD
    ||| u == 0x20
    ||| u == 0x85
    ||| u == 0xA0
    ||| u == 0x1680
    ||| 0x2000 <= u <= 0x200A
    ||| u == 0x2028
    ||| u == 0x2029
    ||| u == 0x202F
    ||| u == 0x205F
    ||| u == 0x3000
}

/// Calls `char::is_whitespace`, which std documents as the Unicode
/// `White_Space` property; the contract says it answers exactly that.
#[verifier::external_body]
pub(crate) fn is_whitespace(c: char) -> (b: bool)
    ensures
        b == unicode_white_space(c),
{
    c.is_whitespace()
}

/// `s` cut at every `sep`, left to right; the pieces hold no `sep`, and a
/// text with `k` separators gives `k + 1` pieces (empty ones included).
pub open spec fn split_on(s: Seq<char>, sep: char) -> Seq<Seq<char>>
    decreases s.len(),
{
    if s.len() == 0 {
        seq![Seq::<char>::empty()]
    } else {
        let pieces = split_on(s.drop_last(), sep);
        if s.last() == sep {
            pieces.push(Seq::<char>::empty())
        } else {
            pieces.update(pieces.len() - 1, pieces.last().push(s.last()))
        }
    }
}

/// Splitting always gives at least one piece.
pub proof fn lemma_split_on_nonempty(s: Seq<char>, sep: char)
    ensures
        split_on(s, sep).len() >= 1,
    decreases s.len(),
{
    if s.len() > 0 {
        lemma_split_on_nonempty(s.drop_last(), sep);
    }
}

/// Appending text without separators extends the last piece.
pub proof fn lemma_split_append_no_sep(p: Seq<char>, d: Seq<char>, sep: char)
    requires
        forall|i: int| 0 <= i < d.len() ==> d[i] != sep,
    ensures
        split_on(p + d, sep) == split_on(p, sep).update(
            split_on(p, sep).len() - 1,
            split_on(p, sep).last() + d,
        ),
    decreases d.len(),
{
    lemma_split_on_nonempty(p, sep);
    if d.len() == 0 {
        assert(p + d =~= p);
        let pieces = split_on(p, sep);
        assert(pieces.last() + d =~= pieces.last());
        assert(pieces.update(pieces.len() - 1, pieces.last()) =~= pieces);
    } else {
        let d0 = d.drop_last();
        lemma_split_append_no_sep(p, d0, sep);
        assert((p + d).drop_last() =~= p + d0);
        assert((p + d).last() == d.last());
        let pieces = split_on(p, sep);
        assert(pieces.last() + d =~= (pieces.last() + d0).push(d.last()));
        assert(split_on(p + d, sep) =~= pieces.update(pieces.len() - 1, pieces.last() + d));
    }
}

/// Text without the separator is one piece.
pub proof fn lemma_split_on_no_sep(s: Seq<char>, sep: char)
    requires
        forall|i: int| 0 <= i < s.len() ==> s[i] != sep,
    ensures
        split_on(s, sep) == seq![s],
{
    lemma_split_append_no_sep(Seq::<char>::empty(), s, sep);
    assert(Seq::<char>::empty() + s =~= s);
    assert(split_on(Seq::<char>::empty(), sep).update(0, Seq::<char>::empty() + s) =~= seq![s]);
}

/// Cutting two texts joined by one separator gives the pieces of the first
/// followed by the pieces of the second.
pub proof fn lemma_split_on_concat(p: Seq<char>, q: Seq<char>, sep: char)
    ensures
        split_on(p.push(sep) + q, sep) == split_on(p, sep) + split_on(q, sep),
    decreases q.len(),
{
    lemma_split_on_nonempty(p, sep);
    let ps = split_on(p, sep);
    let whole = p.push(sep) + q;
    if q.len() == 0 {
        assert(whole =~= p.push(sep));
        assert(whole.drop_last() =~= p);
        assert(split_on(q, sep) =~= seq![Seq::<char>::empty()]);
        assert(split_on(whole, sep) =~= ps + split_on(q, sep));
    } else {
        let q0 = q.drop_last();
        let c = q.last();
        lemma_split_on_concat(p, q0, sep);
        lemma_split_on_nonempty(q0, sep);
        let qs0 = split_on(q0, sep);
        assert(whole.drop_last() =~= p.push(sep) + q0);
        assert(whole.last() == c);
        if c == sep {
            assert(split_on(whole, sep) =~= ps + split_on(q, sep));
        } else {
            let joined = ps + qs0;
            assert(joined.last() == qs0.last());
            assert(split_on(whole, sep) =~= ps + split_on(q, sep));
        }
    }
}

/// `s` without the white space at its start.
pub open spec fn trim_start(s: Seq<char>) -> Seq<char>
    decreases s.len(),
{
    if s.len() > 0 && unicode_white_space(s[0]) {
        trim_start(s.drop_first())
    } else {
        s
    }
}

/// `s` without the white space at its end.
pub open spec fn trim_end(s: Seq<char>) -> Seq<char>
    decreases s.len(),
{
    if s.len() > 0 && unicode_white_space(s.last()) {
        trim_end(s.drop_last())
    } else {
        s
    }
}

/// `s` without white space at either end, as `str::trim` leaves it.
pub open spec fn trimmed(s: Seq<char>) -> Seq<char> {
    trim_end(trim_start(s))
}

/// The API key held in a key file's text: the text without white space at
/// either end.
pub fn api_key_from_text(text: &str) -> (key: String)
    ensures
        key@ == trimmed(text@),
{
    let n = text.unicode_len();
    let mut lo: usize = 0;
    assert(text@.subrange(0, n as int) =~= text@);
    while lo < n && is_whitespace(text.get_char(lo))
        invariant
            n == text@.len(),
            0 <= lo <= n,
            trim_start(text@) == trim_start(text@.subrange(lo as int, n as int)),
        decreases n - lo,
    {
        assert(text@.subrange(lo as int, n as int).drop_first() =~= text@.subrange(lo + 1, n as int));
        lo = lo + 1;
    }
    assert(trim_start(text@.subrange(lo as int, n as int)) == text@.subrange(lo as int, n as int));
    let mut hi: usize = n;
    while hi > lo && is_whitespace(text.get_char(hi - 1))
        invariant
            n == text@.len(),
            0 <= lo <= hi <= n,
            trim_end(text@.subrange(lo as int, n as int)) == trim_end(text@.subrange(lo as int, hi as int)),
        decreases hi,
    {
        assert(text@.subrange(lo as int, hi as int).drop_last() =~= text@.subrange(lo as int, hi - 1));
        hi = hi - 1;
    }
    assert(trim_end(text@.subrange(lo as int, hi as int)) == text@.subrange(lo as int, hi as int));
    text.substring_char(lo, hi).to_owned()
}

/// `s` with every occurrence of `pattern` replaced by `replacement`, as
/// `str::replace` does it: matches are taken left to right without overlap;
/// an empty pattern matches before every character and at the end.
pub open spec fn replaced(s: Seq<char>, pattern: Seq<char>, replacement: Seq<char>) -> Seq<char>
    decreases s.len(),
{
    if pattern.len() == 0 {
        if s.len() == 0 {
            replacement
        } else {
            replacement + seq![s[0]] + replaced(s.drop_first(), pattern, replacement)
        }
    } else if s.len() == 0 {
        Seq::empty()
    } else if pattern.len() <= s.len() && s.take(pattern.len() as int) == pattern {
        replacement + replaced(s.skip(pattern.len() as int), pattern, replacement)
    } else {
        seq![s[0]] + replaced(s.drop_first(), pattern, replacement)
    }
}

/// Whether `pattern` occurs in `s` at character position `at`.
fn matches_at(s: &str, n: usize, pattern: &str, m: usize, at: usize) -> (b: bool)
    requires
        n == s@.len(),
        m == pattern@.len(),
        at <= n,
    ensures
        b == (m <= n - at && s@.subrange(at as int, at + m) == pattern@),
{
    if m > n - at {
        return false;
    }
    let mut k: usize = 0;
    while k < m
        invariant
            n == s@.len(),
            m == pattern@.len(),
            at + m <= n,
            0 <= k <= m,
            forall|j: int| 0 <= j < k ==> s@[at + j] == pattern@[j],
        decreases m - k,
    {
        if s.get_char(at + k) != pattern.get_char(k) {
            assert(s@.subrange(at as int, at + m)[k as int] != pattern@[k as int]);
            return false;
        }
        k = k + 1;
    }
    assert(s@.subrange(at as int, at + m) =~= pattern@);
    true
}

/// The file name that a rename with `pattern` and `replacement` gives
/// `name`: every occurrence of `pattern` replaced, as `str::replace` does.
pub fn rename_target(name: &str, pattern: &str, replacement: &str) -> (renamed: String)
    ensures
        renamed@ == replaced(name@, pattern@, replacement@),
{
    let n = name.unicode_len();
    let m = pattern.unicode_len();
    let mut out = String::new();
    let mut i: usize = 0;
    assert(name@.skip(0) =~= name@);
    assert(out@ + replaced(name@, pattern@, replacement@) =~= replaced(name@, pattern@, replacement@));
    while i < n
        invariant
            n == name@.len(),
            m == pattern@.len(),
            0 <= i <= n,
            out@ + replaced(name@.skip(i as int), pattern@, replacement@) == replaced(name@, pattern@, replacement@),
        decreases n - i,
    {
        let ghost rest = name@.skip(i as int);
        let ghost before = out@;
        if m == 0 {
            out.append(replacement);
            out.append(name.substring_char(i, i + 1));
            assert(rest.drop_first() =~= name@.skip(i + 1));
            assert(rest[0] == name@[i as int]);
            assert(name@.subrange(i as int, i + 1) =~= seq![rest[0]]);
            i = i + 1;
        } else if matches_at(name, n, pattern, m, i) {
            out.append(replacement);
            assert(rest.take(m as int) =~= name@.subrange(i as int, i + m));
            assert(rest.skip(m as int) =~= name@.skip(i + m));
            i = i + m;
        } else {
            out.append(name.substring_char(i, i + 1));
            assert(rest.drop_first() =~= name@.skip(i + 1));
            assert(rest[0] == name@[i as int]);
            assert(name@.subrange(i as int, i + 1) =~= seq![rest[0]]);
            proof {
                if m <= rest.len() {
                    assert(rest.take(m as int) =~= name@.subrange(i as int, i + m));
                }
            }
            i = i + 1;
        }
        assert(out@ + replaced(name@.skip(i as int), pattern@, replacement@) =~= before + replaced(rest, pattern@, replacement@));
    }
    if m == 0 {
        out.append(replacement);
    }
    assert(name@.skip(n as int) =~= Seq::<char>::empty());
    if m == 0 {
        assert(out@ =~= replaced(name@, pattern@, replacement@));
    } else {
        assert(out@ + Seq::<char>::empty() =~= out@);
    }
    out
}

/// `pieces` with `sep` between neighbours.
pub open spec fn join_with(pieces: Seq<Seq<char>>, sep: Seq<char>) -> Seq<char>
    decreases pieces.len(),
{
    if pieces.len() == 0 {
        Seq::empty()
    } else if pieces.len() == 1 {
        pieces[0]
    } else {
        pieces[0] + sep + join_with(pieces.drop_first(), sep)
    }
}

/// Whether `pattern` occurs in `s` starting at position `i`.
pub open spec fn occurs_at(s: Seq<char>, pattern: Seq<char>, i: int) -> bool {
    0 <= i && i + pattern.len() <= s.len() && s.subrange(i, i + pattern.len()) == pattern
}

/// Putting `x` before the first piece puts it before the joined text.
proof fn lemma_join_with_extend_first(pieces: Seq<Seq<char>>, x: Seq<char>, sep: Seq<char>)
    requires
        pieces.len() > 0,
    ensures
        join_with(pieces.update(0, x + pieces[0]), sep) == x + join_with(pieces, sep),
{
    let q = pieces.update(0, x + pieces[0]);
    if pieces.len() > 1 {
        assert(q.drop_first() =~= pieces.drop_first());
        assert(x + pieces[0] + sep + join_with(pieces.drop_first(), sep) =~= x + (pieces[0] + sep + join_with(
            pieces.drop_first(),
            sep,
        )));
    }
}

/// Which pieces a rename cuts a name into: `pieces` joined by `pattern`
/// give the name, and no occurrence of `pattern` starts inside a piece (for
/// a piece followed by a match, an occurrence may run into that match).
pub open spec fn leftmost_cut(pieces: Seq<Seq<char>>, pattern: Seq<char>) -> bool {
    &&& pieces.len() > 0
    &&& forall|j: int, t: int|
        0 <= j < pieces.len() - 1 && 0 <= t < pieces[j].len() ==> !#[trigger] occurs_at(pieces[j] + pattern, pattern, t)
    &&& forall|t: int| 0 <= t < pieces.last().len() ==> !#[trigger] occurs_at(pieces.last(), pattern, t)
}

/// Renaming with a non-empty pattern cuts the name at the matches of the
/// pattern taken left to right without overlap, and puts the replacement
/// where each match was: there are pieces that, joined by the pattern, give
/// the name, that hold no occurrence of the pattern starting inside them, and
/// that, joined by the replacement, give the new name.
pub proof fn law_rename_replaces_each_match(name: Seq<char>, pattern: Seq<char>, replacement: Seq<char>)
    requires
        pattern.len() > 0,
    ensures
        exists|pieces: Seq<Seq<char>>|
            leftmost_cut(pieces, pattern) && #[trigger] join_with(pieces, pattern) == name && join_with(pieces, replacement)
                == replaced(name, pattern, replacement),
    decreases name.len(),
{
    let m = pattern.len();
    if name.len() == 0 {
        let pieces = seq![Seq::<char>::empty()];
        assert(join_with(pieces, pattern) == name);
        assert(leftmost_cut(pieces, pattern));
    } else if m <= name.len() && name.take(m as int) == pattern {
        let rest = name.skip(m as int);
        law_rename_replaces_each_match(rest, pattern, replacement);
        let us = choose|us: Seq<Seq<char>>|
            leftmost_cut(us, pattern) && #[trigger] join_with(us, pattern) == rest && join_with(us, replacement)
                == replaced(rest, pattern, replacement);
        let pieces = seq![Seq::<char>::empty()] + us;
        assert(pieces.drop_first() =~= us);
        assert(join_with(pieces, pattern) =~= name) by {
            assert(Seq::<char>::empty() + pattern + rest =~= name);
        }
        assert(join_with(pieces, replacement) =~= replaced(name, pattern, replacement)) by {
            assert(Seq::<char>::empty() + replacement + replaced(rest, pattern, replacement) =~= replacement
                + replaced(rest, pattern, replacement));
        }
        assert forall|j: int, t: int|
            0 <= j < pieces.len() - 1 && 0 <= t < pieces[j].len() implies !#[trigger] occurs_at(
            pieces[j] + pattern,
            pattern,
            t,
        ) by {
            assert(j > 0);
            assert(pieces[j] == us[j - 1]);
        }
        assert(pieces.last() == us.last());
        assert(leftmost_cut(pieces, pattern));
    } else {
        let c = name[0];
        let rest = name.drop_first();
        law_rename_replaces_each_match(rest, pattern, replacement);
        let us = choose|us: Seq<Seq<char>>|
            leftmost_cut(us, pattern) && #[trigger] join_with(us, pattern) == rest && join_with(us, replacement)
                == replaced(rest, pattern, replacement);
        let pieces = us.update(0, seq![c] + us[0]);
        lemma_join_with_extend_first(us, seq![c], pattern);
        lemma_join_with_extend_first(us, seq![c], replacement);
        assert(seq![c] + rest =~= name);
        assert(join_with(pieces, pattern) == name);
        assert(seq![c] + replaced(rest, pattern, replacement) == replaced(name, pattern, replacement));
        let u0 = pieces[0];
        assert forall|j: int, t: int|
            0 <= j < pieces.len() - 1 && 0 <= t < pieces[j].len() implies !#[trigger] occurs_at(
            pieces[j] + pattern,
            pattern,
            t,
        ) by {
            if j > 0 {
                assert(pieces[j] == us[j]);
            } else {
                let w = u0 + pattern;
                let w1 = us[0] + pattern;
                assert(w =~= seq![c] + w1);
                if t == 0 {
                    // The name starts with `u0 + pattern`, and it does not start with the pattern.
                    assert(name =~= u0 + pattern + join_with(pieces.drop_first(), pattern));
                    if occurs_at(w, pattern, 0) {
                        assert(name.take(m as int) =~= w.subrange(0, m as int));
                    }
                } else {
                    assert(!occurs_at(w1, pattern, t - 1));
                    if occurs_at(w, pattern, t) {
                        assert(w.subrange(t, t + m) =~= w1.subrange(t - 1, t - 1 + m));
                    }
                }
            }
        }
        assert forall|t: int| 0 <= t < pieces.last().len() implies !#[trigger] occurs_at(pieces.last(), pattern, t) by {
            if pieces.len() > 1 {
                assert(pieces.last() == us.last());
            } else {
                assert(u0 =~= seq![c] + us[0]);
                assert(name =~= u0);
                if t == 0 {
                    if occurs_at(u0, pattern, 0) {
                        assert(name.take(m as int) =~= u0.subrange(0, m as int));
                    }
                } else {
                    assert(us.len() == 1 && us.last() == us[0]);
                    assert(0 <= t - 1 < us[0].len());
                    assert(!occurs_at(us[0], pattern, t - 1));
                    if occurs_at(u0, pattern, t) {
                        assert(u0.subrange(t, t + m) =~= us[0].subrange(t - 1, t - 1 + m));
                    }
                }
            }
        }
        assert(leftmost_cut(pieces, pattern));
    }
}

/// The pieces an empty pattern cuts a name into: an empty piece, each
/// character alone, and another empty piece.
pub open spec fn each_char_between(name: Seq<char>) -> Seq<Seq<char>> {
    Seq::new(name.len() + 2, |i: int| if 1 <= i <= name.len() { seq![name[i - 1]] } else { Seq::<char>::empty() })
}

/// Renaming with an empty pattern puts the replacement before every
/// character and at the end.
pub proof fn law_rename_empty_pattern(name: Seq<char>, replacement: Seq<char>)
    ensures
        replaced(name, Seq::<char>::empty(), replacement) == join_with(each_char_between(name), replacement),
    decreases name.len(),
{
    let pieces = each_char_between(name);
    let tail = pieces.drop_first();
    if name.len() == 0 {
        assert(tail =~= seq![Seq::<char>::empty()]);
        assert(pieces[0] =~= Seq::<char>::empty());
        assert(join_with(tail, replacement) =~= Seq::<char>::empty());
        assert(join_with(pieces, replacement) == pieces[0] + replacement + join_with(tail, replacement));
        assert(join_with(pieces, replacement) =~= replacement);
    } else {
        let rest = name.drop_first();
        law_rename_empty_pattern(rest, replacement);
        let rp = each_char_between(rest);
        assert(tail.drop_first() =~= rp.drop_first());
        assert(tail[0] == seq![name[0]]);
        assert(join_with(tail, replacement) == seq![name[0]] + replacement + join_with(rp.drop_first(), replacement));
        assert(join_with(rp, replacement) == Seq::<char>::empty() + replacement + join_with(rp.drop_first(), replacement));
        assert(join_with(pieces, replacement) =~= replacement + seq![name[0]] + join_with(rp, replacement));
    }
}

} // verus!
