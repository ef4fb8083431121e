use vstd::prelude::*;
use crate::text::{split_on, lemma_split_on_nonempty, lemma_split_on_concat, lemma_split_on_no_sep};

verus! {

/// `piece` without one carriage return at its end.
pub open spec fn strip_cr(piece: Seq<char>) -> Seq<char> {
    if piece.len() > 0 && piece.last() == '\r' {
        piece.drop_last()
    } else {
        piece
    }
}

/// The lines of `text` as `str::lines` gives them: cut at each line feed,
/// a carriage return just before a line feed dropped, and no empty line
/// after a final line feed.
pub open spec fn lines_of(text: Seq<char>) -> Seq<Seq<char>> {
    let pieces = split_on(text, '\n');
    let ended = pieces.drop_last().map_values(|p: Seq<char>| strip_cr(p));
    if pieces.last().len() == 0 {
        ended
    } else {
        ended.push(pieces.last())
    }
}

/// The text the store's file holds for `records`: each record followed by a
/// line feed.
pub open spec fn records_text(records: Seq<Seq<char>>) -> Seq<char>
    decreases records.len(),
{
    if records.len() == 0 {
        Seq::empty()
    } else {
        records_text(records.drop_last()) + records.last() + seq!['\n']
    }
}

/// `records` joined with a line feed between neighbours.
pub open spec fn joined(records: Seq<Seq<char>>) -> Seq<char>
    decreases records.len(),
{
    if records.len() == 0 {
        Seq::empty()
    } else if records.len() == 1 {
        records[0]
    } else {
        joined(records.drop_last()) + seq!['\n'] + records.last()
    }
}

/// The text of each string in `v`.
pub open spec fn texts(v: Seq<String>) -> Seq<Seq<char>> {
    v.map_values(|s: String| s@)
}

/// Cuts the store's file text into its records, one per line.
pub fn split_lines(text: &str) -> (records: Vec<String>)
    ensures
        texts(records@) == lines_of(text@),
{
    let n = text.unicode_len();
    let mut records: Vec<String> = Vec::new();
    let mut start: usize = 0;
    let mut i: usize = 0;
    let ghost mut done: Seq<Seq<char>> = Seq::empty();
    assert(text@.take(0) =~= Seq::<char>::empty());
    assert(split_on(text@.take(0), '\n') =~= done.push(text@.subrange(0, 0)));
    while i < n
        invariant
            n == text@.len(),
            0 <= start <= i <= n,
            split_on(text@.take(i as int), '\n') == done.push(text@.subrange(start as int, i as int)),
            texts(records@) == done.map_values(|p: Seq<char>| strip_cr(p)),
        decreases n - i,
    {
        let c = text.get_char(i);
        let ghost prefix = text@.take(i as int);
        assert(text@.take(i + 1).drop_last() =~= prefix);
        assert(text@.take(i + 1).last() == c);
        if c == '\n' {
            let ghost piece = text@.subrange(start as int, i as int);
            let end = if i > start && text.get_char(i - 1) == '\r' {
                i - 1
            } else {
                i
            };
            assert(text@.subrange(start as int, end as int) =~= strip_cr(piece));
            let line = text.substring_char(start, end).to_owned();
            let ghost old_records = records@;
            records.push(line);
            proof {
                let old_done = done;
                assert(texts(records@) =~= texts(old_records).push(strip_cr(piece)));
                assert(old_done.push(piece).map_values(|p: Seq<char>| strip_cr(p)) =~= old_done.map_values(|p: Seq<char>| strip_cr(p)).push(strip_cr(piece)));
                done = done.push(piece);
                assert(done.drop_last() =~= old_done);
                assert(split_on(text@.take(i + 1), '\n') == split_on(prefix, '\n').push(Seq::<char>::empty()));
                assert(text@.subrange(i + 1, i + 1) =~= Seq::<char>::empty());
                assert(split_on(text@.take(i + 1), '\n') =~= done.push(text@.subrange(i + 1, i + 1)));
                assert(texts(records@) =~= done.map_values(|p: Seq<char>| strip_cr(p)));
            }
            start = i + 1;
        } else {
            proof {
                lemma_split_on_nonempty(prefix, '\n');
                assert(text@.subrange(start as int, i + 1) =~= text@.subrange(start as int, i as int).push(c));
                assert(split_on(text@.take(i + 1), '\n') =~= done.push(text@.subrange(start as int, i + 1)));
            }
        }
        i = i + 1;
    }
    assert(text@.take(n as int) =~= text@);
    let ghost pieces = split_on(text@, '\n');
    assert(pieces.drop_last() =~= done);
    if start < n {
        let line = text.substring_char(start, n).to_owned();
        records.push(line);
        assert(texts(records@) =~= lines_of(text@));
    } else {
        assert(texts(records@) =~= lines_of(text@));
    }
    records
}

/// Joins the records with a line feed between neighbours, as the listing
/// answered to a read.
pub fn join_lines(records: &Vec<String>) -> (text: String)
    ensures
        text@ == joined(texts(records@)),
{
    let mut text = String::new();
    let newline = "\n";
    proof {
        reveal_strlit("\n");
    }
    let mut i: usize = 0;
    assert(texts(records@).take(0) =~= Seq::<Seq<char>>::empty());
    while i < records.len()
        invariant
            0 <= i <= records@.len(),
            newline@ == seq!['\n'],
            text@ == joined(texts(records@).take(i as int)),
        decreases records@.len() - i,
    {
        let ghost t = texts(records@).take(i + 1);
        assert(t.drop_last() =~= texts(records@).take(i as int));
        assert(t.last() == records@[i as int]@);
        if i > 0 {
            text.append(newline);
        } else {
            assert(t =~= seq![records@[0]@]);
        }
        text.append(records[i].as_str());
        i = i + 1;
    }
    assert(texts(records@).take(records@.len() as int) =~= texts(records@));
    text
}

/// The text of the store's file for `records`: each record followed by a
/// line feed.
pub fn render_records(records: &Vec<String>) -> (text: String)
    ensures
        text@ == records_text(texts(records@)),
{
    let mut text = String::new();
    let newline = "\n";
    proof {
        reveal_strlit("\n");
    }
    let mut i: usize = 0;
    assert(texts(records@).take(0) =~= Seq::<Seq<char>>::empty());
    while i < records.len()
        invariant
            0 <= i <= records@.len(),
            newline@ == seq!['\n'],
            text@ == records_text(texts(records@).take(i as int)),
        decreases records@.len() - i,
    {
        let ghost t = texts(records@).take(i + 1);
        assert(t.drop_last() =~= texts(records@).take(i as int));
        assert(t.last() == records@[i as int]@);
        text.append(records[i].as_str());
        text.append(newline);
        i = i + 1;
    }
    assert(texts(records@).take(records@.len() as int) =~= texts(records@));
    text
}

/// The answer the store gives to a request.
#[derive(Debug, Clone, Copy, PartialEq, Eq, Structural)]
pub enum Reply {
    /// A record was written to the file and kept in memory.
    Added,
    /// Writing the record to the file failed.
    WriteFailed,
    /// The record was written but the line feed after it was not.
    NewlineFailed,
    /// A record was removed and the file rewritten.
    Removed,
    /// No record held the text to remove.
    NotFound,
}

impl Reply {
    /// The HTTP status code of the answer.
    pub fn status(&self) -> (code: u16)
        ensures
            code == (match *self {
                Reply::Added => 200u16,
                Reply::WriteFailed => 500u16,
                Reply::NewlineFailed => 500u16,
                Reply::Removed => 200u16,
                Reply::NotFound => 404u16,
            }),
    {
        match *self {
            Reply::Added => 200,
            Reply::WriteFailed => 500,
            Reply::NewlineFailed => 500,
            Reply::Removed => 200,
            Reply::NotFound => 404,
        }
    }

    /// The text of the answer; for `NewlineFailed` the caller appends the
    /// reason the write failed.
    pub fn message(&self) -> (text: String)
        ensures
            text@ == (match *self {
                Reply::Added => "Data added to file and in-memory vector"@,
                Reply::WriteFailed => "Failed to write to file"@,
                Reply::NewlineFailed => "Failed to write newline to file: "@,
                Reply::Removed => "Data removed from file and in-memory vector"@,
                Reply::NotFound => "Data not found in memory"@,
            }),
    {
        match *self {
            Reply::Added => "Data added to file and in-memory vector".to_owned(),
            Reply::WriteFailed => "Failed to write to file".to_owned(),
            Reply::NewlineFailed => "Failed to write newline to file: ".to_owned(),
            Reply::Removed => "Data removed from file and in-memory vector".to_owned(),
            Reply::NotFound => "Data not found in memory".to_owned(),
        }
    }
}

/// Which write of an added record has just finished.
#[derive(Debug, Clone, Copy, PartialEq, Eq, Structural)]
pub enum PostStage {
    /// The record itself was written to the file.
    Record,
    /// The line feed after the record was written to the file.
    Newline,
}

/// What to do next while adding a record.
#[derive(Debug, Clone, Copy, PartialEq, Eq, Structural)]
pub enum PostAction {
    /// Write a line feed to the file.
    WriteNewline,
    /// Answer the request.
    Answer(Reply),
}

/// Takes one step of adding `record`, given which write has just finished
/// and whether it succeeded: once the record is written it is kept in
/// memory and a line feed follows; a failed write is answered at once.
pub fn post_step(records: &mut Vec<String>, record: &String, stage: PostStage, write_ok: bool) -> (action: PostAction)
    ensures
        stage == PostStage::Record && write_ok ==> action == PostAction::WriteNewline && final(records)@ == old(records)@.push(*record),
        stage == PostStage::Record && !write_ok ==> action == PostAction::Answer(Reply::WriteFailed) && final(records)@ == old(records)@,
        stage == PostStage::Newline && write_ok ==> action == PostAction::Answer(Reply::Added) && final(records)@ == old(records)@,
        stage == PostStage::Newline && !write_ok ==> action == PostAction::Answer(Reply::NewlineFailed) && final(records)@ == old(records)@,
{
    match stage {
        PostStage::Record => {
            if write_ok {
                records.push(record.clone());
                PostAction::WriteNewline
            } else {
                PostAction::Answer(Reply::WriteFailed)
            }
        },
        PostStage::Newline => {
            if write_ok {
                PostAction::Answer(Reply::Added)
            } else {
                PostAction::Answer(Reply::NewlineFailed)
            }
        },
    }
}

/// Whether `k` is the first position of `records` holding `text`.
pub open spec fn first_match(records: Seq<String>, text: Seq<char>, k: int) -> bool {
    &&& 0 <= k < records.len()
    &&& records[k]@ == text
    &&& forall|j: int| 0 <= j < k ==> #[trigger] records[j]@ != text
}

/// Removes the first record equal to `text`: `Removed` if there was one,
/// else `NotFound` with the records unchanged.
pub fn delete_record(records: &mut Vec<String>, text: &String) -> (reply: Reply)
    ensures
        reply == Reply::Removed || reply == Reply::NotFound,
        reply == Reply::Removed <==> exists|k: int| 0 <= k < old(records)@.len() && #[trigger] old(records)@[k]@ == text@,
        reply == Reply::Removed ==> exists|k: int| first_match(old(records)@, text@, k) && final(records)@ == old(records)@.remove(k),
        reply == Reply::NotFound ==> final(records)@ == old(records)@,
{
    let mut i: usize = 0;
    while i < records.len()
        invariant
            0 <= i <= records@.len(),
            records@ == old(records)@,
            forall|j: int| 0 <= j < i ==> #[trigger] records@[j]@ != text@,
        decreases records@.len() - i,
    {
        if records[i] == *text {
            let ghost before = records@;
            assert(first_match(before, text@, i as int));
            records.remove(i);
            return Reply::Removed;
        }
        i = i + 1;
    }
    Reply::NotFound
}

/// Cutting the text written for a record list into lines gives the records
/// back, provided no record holds a line feed or ends with a carriage
/// return (such a record would come back cut or shortened).
pub proof fn law_records_read_back(records: Seq<Seq<char>>)
    requires
        forall|i: int, j: int| 0 <= i < records.len() && 0 <= j < records[i].len() ==> #[trigger] records[i][j] != '\n',
        forall|i: int| 0 <= i < records.len() && #[trigger] records[i].len() > 0 ==> records[i].last() != '\r',
    ensures
        lines_of(records_text(records)) == records,
    decreases records.len(),
{
    lemma_split_records(records);
    let pieces = split_on(records_text(records), '\n');
    assert(pieces.drop_last() =~= records);
    assert(records.map_values(|p: Seq<char>| strip_cr(p)) =~= records) by {
        assert forall|i: int| 0 <= i < records.len() implies strip_cr(records[i]) == records[i] by {
            if records[i].len() > 0 {
                assert(records[i].last() != '\r');
            }
        }
    }
}

/// The pieces of a record file cut at line feeds: the records, then the
/// empty piece after the final line feed.
proof fn lemma_split_records(records: Seq<Seq<char>>)
    requires
        forall|i: int, j: int| 0 <= i < records.len() && 0 <= j < records[i].len() ==> #[trigger] records[i][j] != '\n',
    ensures
        split_on(records_text(records), '\n') == records.push(Seq::<char>::empty()),
    decreases records.len(),
{
    if records.len() == 0 {
        assert(records_text(records) =~= Seq::<char>::empty());
        assert(records.push(Seq::<char>::empty()) =~= seq![Seq::<char>::empty()]);
    } else {
        let rest = records.drop_last();
        let r = records.last();
        assert forall|i: int, j: int| 0 <= i < rest.len() && 0 <= j < rest[i].len() implies #[trigger] rest[i][j] != '\n' by {
            assert(rest[i] == records[i]);
        }
        lemma_split_records(rest);
        assert forall|j: int| 0 <= j < r.len() implies r[j] != '\n' by {
            assert(records[records.len() - 1][j] != '\n');
        }
        crate::text::lemma_split_append_no_sep(records_text(rest), r, '\n');
        let with_r = records_text(rest) + r;
        assert(records_text(records) =~= with_r.push('\n'));
        assert(records_text(records).drop_last() =~= with_r);
        assert(rest.push(Seq::<char>::empty()).last() + r =~= r);
        assert(split_on(with_r, '\n') =~= rest.push(r));
        assert(records =~= rest.push(r));
    }
}

/// The listing holds every record, in order: cutting it at line feeds
/// gives the records back when none of them holds a line feed (and an empty
/// store lists as empty text).
pub proof fn law_listing_holds_every_record(records: Seq<Seq<char>>)
    requires
        forall|i: int, j: int| 0 <= i < records.len() && 0 <= j < records[i].len() ==> #[trigger] records[i][j] != '\n',
    ensures
        records.len() == 0 ==> joined(records).len() == 0,
        records.len() > 0 ==> split_on(joined(records), '\n') == records,
    decreases records.len(),
{
    if records.len() == 1 {
        assert forall|j: int| 0 <= j < records[0].len() implies records[0][j] != '\n' by {
            assert(records[0][j] != '\n');
        }
        lemma_split_on_no_sep(records[0], '\n');
        assert(records =~= seq![records[0]]);
    } else if records.len() > 1 {
        let rest = records.drop_last();
        let r = records.last();
        assert forall|i: int, j: int| 0 <= i < rest.len() && 0 <= j < rest[i].len() implies #[trigger] rest[i][j] != '\n' by {
            assert(rest[i] == records[i]);
        }
        law_listing_holds_every_record(rest);
        assert forall|j: int| 0 <= j < r.len() implies r[j] != '\n' by {
            assert(records[records.len() - 1][j] != '\n');
        }
        lemma_split_on_no_sep(r, '\n');
        lemma_split_on_concat(joined(rest), r, '\n');
        assert(joined(records) =~= joined(rest).push('\n') + r);
        assert(records =~= rest + seq![r]);
    }
}

} // verus!
