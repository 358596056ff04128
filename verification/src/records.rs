//! The gazetteer's text format: a header line, then one place per line as
//! five fields separated by commas.

use vstd::prelude::*;
use vstd::slice::{slice_subrange, slice_to_vec};

verus! {

pub const COMMA: u8 = 44;

pub const LINE_FEED: u8 = 10;

pub const CARRIAGE_RETURN: u8 = 13;

/// The number of fields of a place.
pub const FIELDS: usize = 5;

/// The fields of one place, as the bytes that the text holds.
#[derive(Debug, PartialEq, Eq)]
pub struct Row {
    pub name: Vec<u8>,
    pub country: Vec<u8>,
    pub region: Vec<u8>,
    pub latitude: Vec<u8>,
    pub longitude: Vec<u8>,
}

impl Row {
    /// The five fields in the order of the line.
    pub open spec fn fields(self) -> Seq<Seq<u8>> {
        seq![self.name@, self.country@, self.region@, self.latitude@, self.longitude@]
    }
}

/// The index of the first `sep` in `s`, or the length of `s` if it holds
/// none.
pub open spec fn first_index_of(s: Seq<u8>, sep: u8) -> int
    decreases s.len(),
{
    if s.len() == 0 || s[0] == sep {
        0
    } else {
        1 + first_index_of(s.drop_first(), sep)
    }
}

/// The pieces of `s` between the occurrences of `sep`. A sequence without
/// `sep` is one piece, the empty sequence too.
pub open spec fn split(s: Seq<u8>, sep: u8) -> Seq<Seq<u8>>
    decreases s.len(),
{
    let i = first_index_of(s, sep);
    if 0 <= i < s.len() {
        seq![s.take(i)] + split(s.skip(i + 1), sep)
    } else {
        seq![s]
    }
}

/// A line without the carriage return that ends it, if one does.
pub open spec fn without_carriage_return(line: Seq<u8>) -> Seq<u8> {
    if line.len() > 0 && line.last() == CARRIAGE_RETURN {
        line.drop_last()
    } else {
        line
    }
}

/// The lines of a text. A line ends with a line feed, or with a carriage
/// return and a line feed; the last line needs no ending, and an ending at
/// the end of the text opens no further line.
pub open spec fn lines(text: Seq<u8>) -> Seq<Seq<u8>>
    decreases text.len(),
{
    if text.len() == 0 {
        Seq::empty()
    } else {
        let i = first_index_of(text, LINE_FEED);
        if 0 <= i < text.len() {
            seq![without_carriage_return(text.take(i))] + lines(text.skip(i + 1))
        } else {
            seq![text]
        }
    }
}

/// The fields of those lines that have five of them.
pub open spec fn rows_of(lines: Seq<Seq<u8>>) -> Seq<Seq<Seq<u8>>>
    decreases lines.len(),
{
    if lines.len() == 0 {
        Seq::empty()
    } else {
        let fields = split(lines.last(), COMMA);
        if fields.len() == FIELDS {
            rows_of(lines.drop_last()).push(fields)
        } else {
            rows_of(lines.drop_last())
        }
    }
}

/// The places of a text: the first line is a header and is passed over, and
/// so is every line that does not have five fields.
pub open spec fn records(text: Seq<u8>) -> Seq<Seq<Seq<u8>>> {
    if lines(text).len() == 0 {
        Seq::empty()
    } else {
        rows_of(lines(text).drop_first())
    }
}

/// The fields of a list of rows.
pub open spec fn rows_view(rows: Seq<Row>) -> Seq<Seq<Seq<u8>>> {
    Seq::new(rows.len(), |k: int| rows[k].fields())
}

/// The contents of a list of byte strings.
pub open spec fn pieces_view(pieces: Seq<Vec<u8>>) -> Seq<Seq<u8>> {
    Seq::new(pieces.len(), |k: int| pieces[k]@)
}

/// The first occurrence of `sep` is where `sep` stands with none before it.
pub proof fn lemma_first_index_of(s: Seq<u8>, sep: u8, i: int)
    requires
        0 <= i <= s.len(),
        forall|k: int| 0 <= k < i ==> s[k] != sep,
        i < s.len() ==> s[i] == sep,
    ensures
        first_index_of(s, sep) == i,
    decreases i,
{
    if i > 0 {
        let rest = s.drop_first();
        assert forall|k: int| 0 <= k < i - 1 implies rest[k] != sep by {
            assert(rest[k] == s[k + 1]);
        }
        lemma_first_index_of(rest, sep, i - 1);
    }
}

/// Finds the first `sep` in `data` from `from` on.
fn find_byte(data: &[u8], from: usize, sep: u8) -> (end: usize)
    requires
        from <= data@.len(),
    ensures
        from <= end <= data@.len(),
        end - from == first_index_of(data@.skip(from as int), sep),
{
    let mut end: usize = from;
    while end < data.len() && data[end] != sep
        invariant
            from <= end <= data@.len(),
            forall|k: int| from <= k < end ==> data@[k] != sep,
        decreases data@.len() - end,
    {
        end += 1;
    }
    proof {
        let rest = data@.skip(from as int);
        assert forall|k: int| 0 <= k < end - from implies rest[k] != sep by {
            assert(rest[k] == data@[from + k]);
        }
        lemma_first_index_of(rest, sep, end - from);
    }
    end
}

/// Splits a line at its commas.
pub fn split_fields(line: &[u8]) -> (fields: Vec<Vec<u8>>)
    ensures
        pieces_view(fields@) == split(line@, COMMA),
{
    let mut fields: Vec<Vec<u8>> = Vec::new();
    let mut pos: usize = 0;
    proof {
        assert(line@.skip(0) =~= line@);
        assert(pieces_view(fields@) + split(line@, COMMA) =~= split(line@, COMMA));
    }
    loop
        invariant_except_break
            pos <= line@.len(),
            split(line@, COMMA) == pieces_view(fields@) + split(line@.skip(pos as int), COMMA),
        ensures
            pieces_view(fields@) == split(line@, COMMA),
        decreases line@.len() - pos,
    {
        let end = find_byte(line, pos, COMMA);
        let piece = slice_to_vec(slice_subrange(line, pos, end));
        let ghost before = pieces_view(fields@);
        let ghost rest = line@.skip(pos as int);
        fields.push(piece);
        proof {
            assert(pieces_view(fields@) =~= before.push(line@.subrange(pos as int, end as int)));
            assert(rest.take(end - pos) =~= line@.subrange(pos as int, end as int));
        }
        if end == line.len() {
            proof {
                assert(rest.take(end - pos) =~= rest);
                assert(before + seq![rest] =~= before.push(rest));
            }
            break ;
        }
        proof {
            assert(rest.skip(end - pos + 1) =~= line@.skip(end + 1));
            assert(split(rest, COMMA) == seq![rest.take(end - pos)] + split(
                rest.skip(end - pos + 1),
                COMMA,
            ));
            assert(before + (seq![rest.take(end - pos)] + split(line@.skip(end + 1), COMMA))
                =~= before.push(rest.take(end - pos)) + split(line@.skip(end + 1), COMMA));
        }
        pos = end + 1;
    }
    fields
}

/// Makes a row of a line's fields if there are five of them.
pub fn row_of(fields: Vec<Vec<u8>>) -> (row: Option<Row>)
    ensures
        row is Some <==> fields@.len() == FIELDS,
        row matches Some(r) ==> r.fields() == pieces_view(fields@),
{
    let mut fields = fields;
    if fields.len() != FIELDS {
        return None;
    }
    let ghost all = pieces_view(fields@);
    let longitude = fields.pop().unwrap();
    let latitude = fields.pop().unwrap();
    let region = fields.pop().unwrap();
    let country = fields.pop().unwrap();
    let name = fields.pop().unwrap();
    let row = Row { name, country, region, latitude, longitude };
    proof {
        assert(row.fields() =~= all);
    }
    Some(row)
}

/// Reads the places of a gazetteer text.
///
/// The first line is taken for the header. Of the other lines each with
/// five fields gives a row, in the order of the text; the others are passed
/// over.
pub fn parse_records(text: &[u8]) -> (rows: Vec<Row>)
    ensures
        rows_view(rows@) == records(text@),
{
    let mut rows: Vec<Row> = Vec::new();
    let mut pos: usize = 0;
    let ghost mut seen: Seq<Seq<u8>> = Seq::empty();
    proof {
        assert(text@.skip(0) =~= text@);
        assert(seen + lines(text@) =~= lines(text@));
    }
    while pos < text.len()
        invariant
            pos <= text@.len(),
            lines(text@) == seen + lines(text@.skip(pos as int)),
            pos > 0 <==> seen.len() > 0,
            seen.len() > 0 ==> rows_view(rows@) == rows_of(seen.drop_first()),
            seen.len() == 0 ==> rows@.len() == 0,
        decreases text@.len() - pos,
    {
        let end = find_byte(text, pos, LINE_FEED);
        let ghost rest = text@.skip(pos as int);
        let mut stop: usize = end;
        if end < text.len() && end > pos && text[end - 1] == CARRIAGE_RETURN {
            stop = end - 1;
        }
        let line = slice_subrange(text, pos, stop);
        proof {
            assert(rest.take(end - pos) =~= text@.subrange(pos as int, end as int));
            if end < text@.len() {
                let whole = rest.take(end - pos);
                if whole.len() > 0 {
                    assert(whole.last() == text@[end - 1]);
                }
                assert(line@ =~= without_carriage_return(whole));
                assert(rest.skip(end - pos + 1) =~= text@.skip(end + 1));
                assert(lines(rest) == seq![line@] + lines(text@.skip(end + 1)));
                assert(seen + (seq![line@] + lines(text@.skip(end + 1))) =~= seen.push(line@)
                    + lines(text@.skip(end + 1)));
            } else {
                assert(line@ =~= rest);
                assert(lines(rest) == seq![line@]);
                assert(text@.skip(text@.len() as int).len() == 0);
                assert(lines(text@.skip(text@.len() as int)) =~= Seq::<Seq<u8>>::empty());
                assert(seen + seq![line@] =~= seen.push(line@) + Seq::<Seq<u8>>::empty());
            }
        }
        if pos > 0 {
            let fields = split_fields(line);
            let ghost before = rows_view(rows@);
            proof {
                assert(seen.push(line@).drop_first() =~= seen.drop_first().push(line@));
                assert(seen.drop_first().push(line@).drop_last() =~= seen.drop_first());
            }
            match row_of(fields) {
                Some(row) => {
                    rows.push(row);
                    proof {
                        assert(rows_view(rows@) =~= before.push(row.fields()));
                    }
                },
                None => {
                    proof {
                        assert(rows_view(rows@) =~= before);
                    }
                },
            }
        } else {
            proof {
                assert(seen =~= Seq::<Seq<u8>>::empty());
                assert(seen.push(line@).drop_first() =~= Seq::<Seq<u8>>::empty());
            }
        }
        proof {
            seen = seen.push(line@);
        }
        if end < text.len() {
            pos = end + 1;
        } else {
            pos = end;
        }
    }
    proof {
        assert(text@.skip(pos as int).len() == 0);
        assert(lines(text@.skip(pos as int)) =~= Seq::<Seq<u8>>::empty());
        assert(seen + Seq::<Seq<u8>>::empty() =~= seen);
        if seen.len() == 0 {
            assert(rows_view(rows@) =~= Seq::<Seq<Seq<u8>>>::empty());
        }
    }
    rows
}

} // verus!
