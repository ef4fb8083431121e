use vstd::prelude::*;
use crate::decimal::{decimal, parsed_i32, i32_to_string, parse_i32, lemma_parse_decimal, is_digit};
use crate::text::{is_whitespace, unicode_white_space, split_on, lemma_split_on_nonempty, lemma_split_append_no_sep, lemma_split_on_concat, lemma_split_on_no_sep};
use rand::Rng;

verus! {

/// Whether `seg` is empty or made of white space only, so that trimming it
/// leaves nothing.
pub open spec fn is_blank(seg: Seq<char>) -> bool {
    forall|i: int| 0 <= i < seg.len() ==> #[trigger] unicode_white_space(seg[i])
}

/// What one comma-separated piece of a line contributes: nothing if it is
/// blank, its value if `i32::from_str` accepts it as it stands, else an
/// error.
pub open spec fn segment_value(seg: Seq<char>) -> Result<Option<i32>, ()> {
    if is_blank(seg) {
        Ok(None)
    } else {
        match parsed_i32(seg) {
            Some(v) => Ok(Some(v)),
            None => Err(()),
        }
    }
}

/// The values of `segs`, in order, or the first piece that is not a number.
pub open spec fn parse_segments(segs: Seq<Seq<char>>) -> Result<Seq<i32>, Seq<char>>
    decreases segs.len(),
{
    if segs.len() == 0 {
        Ok(Seq::empty())
    } else {
        match parse_segments(segs.drop_last()) {
            Err(e) => Err(e),
            Ok(vs) => match segment_value(segs.last()) {
                Ok(Some(v)) => Ok(vs.push(v)),
                Ok(None) => Ok(vs),
                Err(_) => Err(segs.last()),
            },
        }
    }
}

/// The numbers on one line of a number file.
pub open spec fn line_numbers(line: Seq<char>) -> Result<Seq<i32>, Seq<char>> {
    parse_segments(split_on(line, ','))
}

/// The numbers of a whole number file given as its lines, or the first
/// piece that is not a number.
pub open spec fn lines_numbers(lines: Seq<Seq<char>>) -> Result<Seq<i32>, Seq<char>>
    decreases lines.len(),
{
    if lines.len() == 0 {
        Ok(Seq::empty())
    } else {
        match lines_numbers(lines.drop_last()) {
            Err(e) => Err(e),
            Ok(vs) => match line_numbers(lines.last()) {
                Err(e) => Err(e),
                Ok(ws) => Ok(vs + ws),
            },
        }
    }
}

/// The text a number file holds for `values`: each value in decimal,
/// followed by a comma.
pub open spec fn format_spec(values: Seq<i32>) -> Seq<char>
    decreases values.len(),
{
    if values.len() == 0 {
        Seq::empty()
    } else {
        format_spec(values.drop_last()) + decimal(values.last() as int) + seq![',']
    }
}

/// Reads one comma-separated piece: `Ok(None)` if it is blank, `Ok(Some(v))`
/// if it is a number, `Err(())` otherwise.
pub fn parse_segment(seg: &str) -> (r: Result<Option<i32>, ()>)
    ensures
        r == segment_value(seg@),
{
    let n = seg.unicode_len();
    let mut i: usize = 0;
    let mut blank = true;
    while i < n
        invariant
            n == seg@.len(),
            0 <= i <= n,
            blank == (forall|j: int| 0 <= j < i ==> #[trigger] unicode_white_space(seg@[j])),
        decreases n - i,
    {
        let c = seg.get_char(i);
        if !is_whitespace(c) {
            blank = false;
        }
        i = i + 1;
    }
    if blank {
        return Ok(None);
    }
    match parse_i32(seg) {
        Some(v) => Ok(Some(v)),
        None => Err(()),
    }
}

/// Reads the numbers of one line of a number file: the line is cut at each
/// comma; blank pieces are skipped; every other piece must be a number as it
/// stands. The first piece that is not a number is the error.
pub fn parse_line(line: &str) -> (r: Result<Vec<i32>, String>)
    ensures
        match r {
            Ok(v) => line_numbers(line@) == Ok::<Seq<i32>, Seq<char>>(v@),
            Err(e) => line_numbers(line@) == Err::<Seq<i32>, Seq<char>>(e@),
        },
{
    let n = line.unicode_len();
    let mut out: Vec<i32> = Vec::new();
    let mut failed: Option<String> = None;
    let mut start: usize = 0;
    let mut i: usize = 0;
    let ghost mut done: Seq<Seq<char>> = Seq::empty();
    assert(line@.take(0) =~= Seq::<char>::empty());
    assert(split_on(line@.take(0), ',') =~= done.push(line@.subrange(0, 0)));
    while i < n
        invariant
            n == line@.len(),
            0 <= start <= i <= n,
            split_on(line@.take(i as int), ',') == done.push(line@.subrange(start as int, i as int)),
            match failed {
                None => parse_segments(done) == Ok::<Seq<i32>, Seq<char>>(out@),
                Some(e) => parse_segments(done) == Err::<Seq<i32>, Seq<char>>(e@),
            },
        decreases n - i,
    {
        let c = line.get_char(i);
        let ghost prefix = line@.take(i as int);
        assert(line@.take(i + 1).drop_last() =~= prefix);
        assert(line@.take(i + 1).last() == c);
        if c == ',' {
            let seg = line.substring_char(start, i);
            if failed.is_none() {
                match parse_segment(seg) {
                    Ok(Some(v)) => {
                        out.push(v);
                    },
                    Ok(None) => {},
                    Err(()) => {
                        failed = Some(seg.to_owned());
                    },
                }
            }
            proof {
                let old_done = done;
                done = done.push(seg@);
                assert(done.drop_last() =~= old_done);
                assert(split_on(line@.take(i + 1), ',') == split_on(prefix, ',').push(Seq::<char>::empty()));
                assert(line@.subrange(i + 1, i + 1) =~= Seq::<char>::empty());
                assert(split_on(line@.take(i + 1), ',') =~= done.push(line@.subrange(i + 1, i + 1)));
            }
            start = i + 1;
        } else {
            proof {
                lemma_split_on_nonempty(prefix, ',');
                assert(line@.subrange(start as int, i + 1) =~= line@.subrange(start as int, i as int).push(c));
                assert(split_on(line@.take(i + 1), ',') =~= done.push(line@.subrange(start as int, i + 1)));
            }
        }
        i = i + 1;
    }
    let seg = line.substring_char(start, n);
    if failed.is_none() {
        match parse_segment(seg) {
            Ok(Some(v)) => {
                out.push(v);
            },
            Ok(None) => {},
            Err(()) => {
                failed = Some(seg.to_owned());
            },
        }
    }
    proof {
        let all = done.push(seg@);
        assert(line@.take(n as int) =~= line@);
        assert(all.drop_last() =~= done);
    }
    match failed {
        None => Ok(out),
        Some(e) => Err(e),
    }
}

/// Reads the numbers of a number file given as its lines, line by line;
/// the first piece that is not a number is the error.
pub fn parse_lines(lines: &Vec<String>) -> (r: Result<Vec<i32>, String>)
    ensures
        match r {
            Ok(v) => lines_numbers(lines@.map_values(|l: String| l@)) == Ok::<Seq<i32>, Seq<char>>(v@),
            Err(e) => lines_numbers(lines@.map_values(|l: String| l@)) == Err::<Seq<i32>, Seq<char>>(e@),
        },
{
    let ghost texts = lines@.map_values(|l: String| l@);
    let mut out: Vec<i32> = Vec::new();
    let mut i: usize = 0;
    assert(texts.take(0) =~= Seq::<Seq<char>>::empty());
    while i < lines.len()
        invariant
            0 <= i <= lines@.len(),
            texts == lines@.map_values(|l: String| l@),
            lines_numbers(texts.take(i as int)) == Ok::<Seq<i32>, Seq<char>>(out@),
        decreases lines@.len() - i,
    {
        let ghost before = out@;
        assert(texts.take(i + 1).drop_last() =~= texts.take(i as int));
        assert(texts.take(i + 1).last() == lines@[i as int]@);
        match parse_line(lines[i].as_str()) {
            Ok(mut v) => {
                out.append(&mut v);
            },
            Err(e) => {
                proof {
                    lemma_lines_numbers_err_prefix(texts, i as int + 1);
                }
                return Err(e);
            },
        }
        i = i + 1;
    }
    assert(texts.take(lines@.len() as int) =~= texts);
    Ok(out)
}

/// Once a prefix of the lines has an error, the whole file has that error.
proof fn lemma_lines_numbers_err_prefix(lines: Seq<Seq<char>>, k: int)
    requires
        0 <= k <= lines.len(),
        lines_numbers(lines.take(k)) is Err,
    ensures
        lines_numbers(lines) == lines_numbers(lines.take(k)),
    decreases lines.len() - k,
{
    if k < lines.len() {
        assert(lines.take(k + 1).drop_last() =~= lines.take(k));
        lemma_lines_numbers_err_prefix(lines, k + 1);
    } else {
        assert(lines.take(k) =~= lines);
    }
}

/// Writes `values` in the number file format: each value in decimal
/// followed by a comma.
pub fn format_numbers(values: &Vec<i32>) -> (text: String)
    ensures
        text@ == format_spec(values@),
{
    let mut text = String::new();
    let comma = ",";
    proof {
        reveal_strlit(",");
    }
    let mut i: usize = 0;
    assert(values@.take(0) =~= Seq::<i32>::empty());
    while i < values.len()
        invariant
            0 <= i <= values@.len(),
            comma@ == seq![','],
            text@ == format_spec(values@.take(i as int)),
        decreases values@.len() - i,
    {
        let digits = i32_to_string(values[i]);
        text.append(digits.as_str());
        text.append(comma);
        assert(values@.take(i + 1).drop_last() =~= values@.take(i as int));
        i = i + 1;
    }
    assert(values@.take(values@.len() as int) =~= values@);
    text
}

/// The remainder of `r` divided by `m` as Rust's `%` computes it on signed
/// integers: it takes the sign of `r`.
pub open spec fn truncated_rem(r: int, m: int) -> int {
    if r >= 0 {
        r % m
    } else {
        -((-r) % m)
    }
}

/// Folds one random draw into the range used for generated numbers: the
/// remainder of `r` divided by 1000, with the sign of `r`.
pub fn reduce_sample(r: i32) -> (v: i32)
    ensures
        v == truncated_rem(r as int, 1000),
        -1000 < v < 1000,
{
    r % 1000
}

/// rand's handle to the thread-local generator, carried through opaquely.
#[verifier::external_type_specification]
#[verifier::external_body]
pub struct ExThreadRng(rand::rngs::ThreadRng);

/// Calls `rand::rng`, which hands out the thread-local generator. Nothing is
/// stated of it; rand documents a panic if the system source of randomness
/// cannot seed it, which no argument can rule out.
#[verifier::external_body]
fn thread_rng() -> rand::rngs::ThreadRng {
    rand::rng()
}

/// Calls `Rng::random::<i32>`, a draw that may be any `i32`; nothing is stated
/// of the value.
#[verifier::external_body]
fn random_i32(rng: &mut rand::rngs::ThreadRng) -> i32 {
    rng.random::<i32>()
}

/// Draws `count` numbers (none if `count` is not positive), each a random
/// `i32` folded by `reduce_sample` into the open range from -1000 to 1000.
pub fn gen_random(count: i32) -> (values: Vec<i32>)
    ensures
        values@.len() == if count > 0 { count as int } else { 0 },
        forall|i: int| 0 <= i < values@.len() ==> -1000 < #[trigger] values@[i] < 1000,
{
    let mut rng = thread_rng();
    let mut values: Vec<i32> = Vec::new();
    let mut i: i32 = 0;
    while i < count
        invariant
            0 <= i,
            count > 0 ==> i <= count,
            count <= 0 ==> i == 0,
            values@.len() == i,
            forall|k: int| 0 <= k < values@.len() ==> -1000 < #[trigger] values@[k] < 1000,
        decreases count - i,
    {
        let r = random_i32(&mut rng);
        values.push(reduce_sample(r));
        i = i + 1;
    }
    values
}

/// How a number file is to be opened.
#[derive(Debug, Clone, Copy, PartialEq, Eq, Structural)]
pub enum OpenPlan {
    /// Refuse: the file was to be read and does not exist.
    NotFound,
    /// Open for reading only.
    ReadOnly,
    /// Open for reading and writing, creating the file if needed.
    ReadWriteCreate,
}

/// Decides how to open a number file: reading a missing file is refused;
/// for reading only the file is opened read-only; otherwise it is opened
/// for reading and writing and created if missing.
pub fn open_plan(read_only: bool, exists: bool) -> (plan: OpenPlan)
    ensures
        plan == (if read_only && !exists {
            OpenPlan::NotFound
        } else if !read_only {
            OpenPlan::ReadWriteCreate
        } else {
            OpenPlan::ReadOnly
        }),
{
    if read_only && !exists {
        return OpenPlan::NotFound;
    }
    if !read_only {
        OpenPlan::ReadWriteCreate
    } else {
        OpenPlan::ReadOnly
    }
}

/// The pieces of a formatted number file: the decimal text of each value,
/// then one empty piece after the final comma.
proof fn lemma_split_format(values: Seq<i32>)
    ensures
        split_on(format_spec(values), ',') == values.map_values(|v: i32| decimal(v as int)).push(Seq::<char>::empty()),
    decreases values.len(),
{
    if values.len() == 0 {
        assert(format_spec(values) =~= Seq::<char>::empty());
        assert(values.map_values(|v: i32| decimal(v as int)).push(Seq::<char>::empty()) =~= seq![Seq::<char>::empty()]);
    } else {
        let rest = values.drop_last();
        let v = values.last();
        lemma_split_format(rest);
        lemma_parse_decimal(v);
        let d = decimal(v as int);
        assert forall|i: int| 0 <= i < d.len() implies d[i] != ',' by {
            assert(d[i] == '-' || is_digit(d[i]));
        }
        let p = format_spec(rest);
        lemma_split_append_no_sep(p, d, ',');
        let with_d = p + d;
        let all = format_spec(values);
        assert(all =~= with_d.push(','));
        assert(all.drop_last() =~= with_d);
        let m_rest = rest.map_values(|v: i32| decimal(v as int));
        let m = values.map_values(|v: i32| decimal(v as int));
        assert(m_rest.push(Seq::<char>::empty()).last() + d =~= d);
        assert(split_on(with_d, ',') =~= m_rest.push(d));
        assert(m =~= m_rest.push(d));
    }
}

/// The pieces holding the decimal texts of `values` read back as `values`.
proof fn lemma_parse_decimals(values: Seq<i32>)
    ensures
        parse_segments(values.map_values(|v: i32| decimal(v as int))) == Ok::<Seq<i32>, Seq<char>>(values),
    decreases values.len(),
{
    let m = values.map_values(|v: i32| decimal(v as int));
    if values.len() == 0 {
        assert(m.len() == 0);
        assert(values =~= Seq::<i32>::empty());
    } else {
        let rest = values.drop_last();
        let v = values.last();
        lemma_parse_decimals(rest);
        lemma_parse_decimal(v);
        let d = decimal(v as int);
        assert(m.drop_last() =~= rest.map_values(|v: i32| decimal(v as int)));
        assert(m.last() == d);
        assert(!is_blank(d)) by {
            assert(d[0] == '-' || is_digit(d[0]));
            assert(!unicode_white_space(d[0]));
        }
        assert(rest.push(v) =~= values);
    }
}

/// What a number file holds when written for `values` reads back as
/// `values`: the file is one line, and every piece of it is either the
/// decimal text of a value or the empty piece after the last comma.
pub proof fn law_read_back_written_numbers(values: Seq<i32>)
    ensures
        line_numbers(format_spec(values)) == Ok::<Seq<i32>, Seq<char>>(values),
        lines_numbers(seq![format_spec(values)]) == Ok::<Seq<i32>, Seq<char>>(values),
{
    lemma_split_format(values);
    lemma_parse_decimals(values);
    let m = values.map_values(|v: i32| decimal(v as int));
    let all = m.push(Seq::<char>::empty());
    assert(all.drop_last() =~= m);
    assert(is_blank(Seq::<char>::empty()));
    let one = seq![format_spec(values)];
    assert(one.drop_last() =~= Seq::<Seq<char>>::empty());
    assert(lines_numbers(one.drop_last()) == Ok::<Seq<i32>, Seq<char>>(Seq::empty()));
    assert(one.last() == format_spec(values));
    assert(Seq::<i32>::empty() + values =~= values);
}

/// Reading two lists of pieces one after the other reads the first, then
/// the second; the first error met is the error.
proof fn lemma_parse_segments_concat(a: Seq<Seq<char>>, b: Seq<Seq<char>>)
    ensures
        parse_segments(a + b) == match parse_segments(a) {
            Err(e) => Err(e),
            Ok(x) => match parse_segments(b) {
                Err(e) => Err(e),
                Ok(y) => Ok::<Seq<i32>, Seq<char>>(x + y),
            },
        },
    decreases b.len(),
{
    if b.len() == 0 {
        assert(a + b =~= a);
        if let Ok(x) = parse_segments(a) {
            assert(x + Seq::<i32>::empty() =~= x);
        }
    } else {
        let b0 = b.drop_last();
        lemma_parse_segments_concat(a, b0);
        assert((a + b).drop_last() =~= a + b0);
        assert((a + b).last() == b.last());
        if let Ok(x) = parse_segments(a) {
            if let Ok(y) = parse_segments(b0) {
                if let Ok(Some(v)) = segment_value(b.last()) {
                    assert(x + y.push(v) =~= (x + y).push(v));
                }
            }
        }
    }
}

/// Reading the line `a,b` reads `a`, then `b`: an empty or blank piece
/// anywhere adds nothing and stops nothing, and the first piece that is not
/// a number is the error.
pub proof fn law_line_numbers_concat(a: Seq<char>, b: Seq<char>)
    ensures
        line_numbers(a.push(',') + b) == match line_numbers(a) {
            Err(e) => Err(e),
            Ok(x) => match line_numbers(b) {
                Err(e) => Err(e),
                Ok(y) => Ok::<Seq<i32>, Seq<char>>(x + y),
            },
        },
{
    lemma_split_on_concat(a, b, ',');
    lemma_parse_segments_concat(split_on(a, ','), split_on(b, ','));
}

/// A line with no comma reads as nothing if it is empty or all white space,
/// as its value if `i32::from_str` accepts it, and as an error naming it
/// otherwise.
pub proof fn law_line_numbers_single_piece(p: Seq<char>)
    requires
        forall|i: int| 0 <= i < p.len() ==> p[i] != ',',
    ensures
        line_numbers(p) == if (forall|i: int| 0 <= i < p.len() ==> #[trigger] unicode_white_space(p[i])) {
            Ok::<Seq<i32>, Seq<char>>(Seq::empty())
        } else {
            match parsed_i32(p) {
                Some(v) => Ok::<Seq<i32>, Seq<char>>(seq![v]),
                None => Err(p),
            }
        },
{
    lemma_split_on_no_sep(p, ',');
    let segs = seq![p];
    assert(segs.drop_last() =~= Seq::<Seq<char>>::empty());
    assert(segs.last() == p);
    assert(parse_segments(segs.drop_last()) == Ok::<Seq<i32>, Seq<char>>(Seq::empty()));
    assert(line_numbers(p) == parse_segments(segs));
    if let Some(v) = parsed_i32(p) {
        assert(Seq::<i32>::empty().push(v) =~= seq![v]);
    }
}

/// A file of one line reads as that line, and reading two runs of lines
/// one after the other reads the first, then the second.
pub proof fn law_lines_numbers_concat(a: Seq<Seq<char>>, b: Seq<Seq<char>>)
    ensures
        lines_numbers(a + b) == match lines_numbers(a) {
            Err(e) => Err(e),
            Ok(x) => match lines_numbers(b) {
                Err(e) => Err(e),
                Ok(y) => Ok::<Seq<i32>, Seq<char>>(x + y),
            },
        },
    decreases b.len(),
{
    if b.len() == 0 {
        assert(a + b =~= a);
        if let Ok(x) = lines_numbers(a) {
            assert(x + Seq::<i32>::empty() =~= x);
        }
    } else {
        let b0 = b.drop_last();
        law_lines_numbers_concat(a, b0);
        assert((a + b).drop_last() =~= a + b0);
        assert((a + b).last() == b.last());
        if let Ok(x) = lines_numbers(a) {
            if let Ok(y) = lines_numbers(b0) {
                if let Ok(z) = line_numbers(b.last()) {
                    assert(x + (y + z) =~= (x + y) + z);
                }
            }
        }
    }
}

/// A file of one line reads as that line.
pub proof fn law_lines_numbers_one_line(line: Seq<char>)
    ensures
        lines_numbers(seq![line]) == line_numbers(line),
{
    let ls = seq![line];
    assert(ls.drop_last() =~= Seq::<Seq<char>>::empty());
    assert(ls.last() == line);
    assert(lines_numbers(ls.drop_last()) == Ok::<Seq<i32>, Seq<char>>(Seq::empty()));
    if let Ok(y) = line_numbers(line) {
        assert(Seq::<i32>::empty() + y =~= y);
    }
}

} // verus!
