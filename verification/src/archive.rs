//! From what the archive serves to the lines of one station-year: the entry
//! of a station in the directory listing, the decompression of its file,
//! and the cut of the text at its newlines.

use vstd::prelude::*;
use vstd::slice::slice_subrange;

verus! {

pub const NEWLINE: u8 = 0x0a;

/// Bytes from the start of the closing tag of the listing's header row to
/// the first entry: the tag and the newline after it.
pub const HEADER_END_TO_FIRST_ENTRY: usize = 11;

/// Bytes from one entry of the listing to the next.
pub const ENTRY_STRIDE: usize = 157;

/// Where, within an entry, the file name begins.
pub const NAME_START: usize = 17;

/// The length of a file name: station, WBAN number, year and suffix.
pub const NAME_WIDTH: usize = 20;

/// Where, within an entry, the WBAN number begins.
pub const WBAN_START: usize = 24;

/// The length of a WBAN number.
pub const WBAN_WIDTH: usize = 5;

/// The tag `</td></tr>` that closes the header row of the listing.
pub open spec fn header_end() -> Seq<u8> {
    seq![0x3cu8, 0x2fu8, 0x74u8, 0x64u8, 0x3eu8, 0x3cu8, 0x2fu8, 0x74u8, 0x72u8, 0x3eu8]
}

/// `pattern` stands in `text` at offset `at`.
pub open spec fn occurs_at(text: Seq<u8>, pattern: Seq<u8>, at: int) -> bool {
    &&& 0 <= at
    &&& at + pattern.len() <= text.len()
    &&& text.subrange(at, at + pattern.len()) == pattern
}

/// `at` is the first offset at which `pattern` stands in `text`.
pub open spec fn first_occurrence(text: Seq<u8>, pattern: Seq<u8>, at: int) -> bool {
    &&& occurs_at(text, pattern, at)
    &&& forall|earlier: int| 0 <= earlier < at ==> !occurs_at(text, pattern, earlier)
}

/// `pattern` stands nowhere in `text`.
pub open spec fn never_occurs(text: Seq<u8>, pattern: Seq<u8>) -> bool {
    forall|at: int| !occurs_at(text, pattern, at)
}

/// Where the entry of the given row begins, in a listing whose header row
/// closes at `header`.
pub open spec fn entry_start(header: int, row: int) -> int {
    header + HEADER_END_TO_FIRST_ENTRY + row * ENTRY_STRIDE
}

/// The entry of `row` lies in the listing as far as its WBAN number, and
/// that number is `wban`.
pub open spec fn entry_is_for(listing: Seq<u8>, header: int, row: int, wban: Seq<u8>) -> bool {
    &&& 0 <= row
    &&& wban.len() == WBAN_WIDTH
    &&& occurs_at(listing, wban, entry_start(header, row) + WBAN_START)
}

/// `row` is the first entry for `wban`.
pub open spec fn first_entry_for(listing: Seq<u8>, header: int, row: int, wban: Seq<u8>) -> bool {
    &&& entry_is_for(listing, header, row, wban)
    &&& forall|earlier: int| 0 <= earlier < row ==> !entry_is_for(listing, header, earlier, wban)
}

/// No entry is for `wban`.
pub open spec fn no_entry_for(listing: Seq<u8>, header: int, wban: Seq<u8>) -> bool {
    forall|row: int| !entry_is_for(listing, header, row, wban)
}

/// The file name in the entry that begins at `start`, if the listing holds
/// all of it.
pub open spec fn name_in_entry(listing: Seq<u8>, start: int) -> Option<Seq<u8>> {
    if start + NAME_START + NAME_WIDTH <= listing.len() {
        Some(listing.subrange(start + NAME_START, start + NAME_START + NAME_WIDTH))
    } else {
        None
    }
}

/// `name` is the file name in the first entry for `wban` after the first
/// header end.
pub open spec fn is_archive_name(listing: Seq<u8>, wban: Seq<u8>, name: Seq<u8>) -> bool {
    exists|header: int, row: int|
        {
            &&& first_occurrence(listing, header_end(), header)
            &&& #[trigger] first_entry_for(listing, header, row, wban)
            &&& name_in_entry(listing, entry_start(header, row)) == Some(name)
        }
}

/// The listing gives no file name for `wban`.
pub open spec fn no_archive_name(listing: Seq<u8>, wban: Seq<u8>) -> bool {
    forall|name: Seq<u8>| !is_archive_name(listing, wban, name)
}

/// The pieces into which the newlines cut `text`: one more than there are
/// newlines, the last piece possibly empty.
pub open spec fn pieces(text: Seq<u8>) -> Seq<Seq<u8>>
    decreases text.len(),
{
    if text.len() == 0 {
        seq![Seq::<u8>::empty()]
    } else {
        let before = pieces(text.drop_last());
        if text.last() == NEWLINE {
            before.push(Seq::empty())
        } else {
            before.drop_last().push(before.last().push(text.last()))
        }
    }
}

/// The pieces put together again, with a newline between each two.
pub open spec fn joined(parts: Seq<Seq<u8>>) -> Seq<u8>
    decreases parts.len(),
{
    if parts.len() == 0 {
        Seq::empty()
    } else if parts.len() == 1 {
        parts[0]
    } else {
        joined(parts.drop_last()).push(NEWLINE) + parts.last()
    }
}

/// How many newlines `text` holds.
pub open spec fn newlines_in(text: Seq<u8>) -> nat
    decreases text.len(),
{
    if text.len() == 0 {
        0
    } else if text.last() == NEWLINE {
        newlines_in(text.drop_last()) + 1
    } else {
        newlines_in(text.drop_last())
    }
}

/// `lines` holds the byte sequences of `expected`.
pub open spec fn lines_are(lines: Seq<Vec<u8>>, expected: Seq<Seq<u8>>) -> bool {
    &&& lines.len() == expected.len()
    &&& forall|i: int| 0 <= i < lines.len() ==> (#[trigger] lines[i])@ == expected[i]
}

/// There is one piece more than there are newlines, no piece holds a
/// newline, and the pieces joined by newlines are the text again. Where the
/// text ends with a newline, the last piece is empty.
pub proof fn lemma_pieces(text: Seq<u8>)
    ensures
        pieces(text).len() == newlines_in(text) + 1,
        forall|i: int, j: int|
            0 <= i < pieces(text).len() && 0 <= j < pieces(text)[i].len() ==> pieces(text)[i][j]
                != NEWLINE,
        joined(pieces(text)) == text,
        text.len() > 0 && text.last() == NEWLINE ==> pieces(text).last().len() == 0,
    decreases text.len(),
{
    if text.len() == 0 {
        assert(joined(pieces(text)) =~= text);
    } else {
        let shorter = text.drop_last();
        let before = pieces(shorter);
        lemma_pieces(shorter);
        let parts = pieces(text);
        if text.last() == NEWLINE {
            assert(parts.drop_last() =~= before);
            assert(joined(parts) =~= shorter.push(NEWLINE));
        } else {
            let grown = before.last().push(text.last());
            assert(parts.last() == grown);
            if before.len() == 1 {
                assert(joined(parts) =~= joined(before).push(text.last()));
            } else {
                assert(parts.drop_last() =~= before.drop_last());
                assert(joined(parts) =~= joined(before).push(text.last()));
            }
            assert forall|i: int, j: int|
                0 <= i < parts.len() && 0 <= j < parts[i].len() implies parts[i][j]
                != NEWLINE by {
                if i < parts.len() - 1 {
                    assert(parts[i] == before[i]);
                } else if j < before.last().len() {
                    assert(parts[i][j] == before[i][j]);
                }
            }
        }
        assert(joined(parts) =~= text);
    }
}

/// Whether `pattern` stands in `text` at `at`.
pub fn matches_at(text: &[u8], pattern: &[u8], at: usize) -> (found: bool)
    ensures
        found == occurs_at(text@, pattern@, at as int),
{
    if pattern.len() > text.len() || at > text.len() - pattern.len() {
        return false;
    }
    let mut index: usize = 0;
    while index < pattern.len()
        invariant
            index <= pattern.len(),
            at + pattern.len() <= text.len(),
            forall|k: int| 0 <= k < index ==> text@[at + k] == pattern@[k],
        decreases pattern.len() - index,
    {
        if text[at + index] != pattern[index] {
            assert(text@.subrange(at as int, at + pattern@.len())[index as int]
                != pattern@[index as int]);
            return false;
        }
        index = index + 1;
    }
    assert(text@.subrange(at as int, at + pattern@.len()) =~= pattern@);
    true
}

/// The first offset at which `pattern` stands in `text`, if it stands
/// anywhere.
pub fn find_first(text: &[u8], pattern: &[u8]) -> (found: Option<usize>)
    ensures
        match found {
            Some(at) => first_occurrence(text@, pattern@, at as int),
            None => never_occurs(text@, pattern@),
        },
{
    if pattern.len() > text.len() {
        return None;
    }
    let last: usize = text.len() - pattern.len();
    let mut at: usize = 0;
    loop
        invariant
            at <= last,
            last == text.len() - pattern.len(),
            forall|earlier: int| 0 <= earlier < at ==> !occurs_at(text@, pattern@, earlier),
        decreases last - at,
    {
        if matches_at(text, pattern, at) {
            return Some(at);
        }
        if at == last {
            return None;
        }
        at = at + 1;
    }
}

/// The first occurrence is one place only.
proof fn lemma_first_occurrence_is_unique(text: Seq<u8>, pattern: Seq<u8>, at: int, other: int)
    requires
        first_occurrence(text, pattern, at),
        first_occurrence(text, pattern, other),
    ensures
        at == other,
{
    if at < other {
        assert(!occurs_at(text, pattern, at));
    } else if other < at {
        assert(!occurs_at(text, pattern, other));
    }
}

proof fn lemma_first_entry_is_unique(
    listing: Seq<u8>,
    header: int,
    row: int,
    other: int,
    wban: Seq<u8>,
)
    requires
        first_entry_for(listing, header, row, wban),
        first_entry_for(listing, header, other, wban),
    ensures
        row == other,
{
    if row < other {
        assert(!entry_is_for(listing, header, row, wban));
    } else if other < row {
        assert(!entry_is_for(listing, header, other, wban));
    }
}

proof fn lemma_no_name_without_header(listing: Seq<u8>, wban: Seq<u8>)
    requires
        never_occurs(listing, header_end()),
    ensures
        no_archive_name(listing, wban),
{
    assert forall|name: Seq<u8>| !is_archive_name(listing, wban, name) by {
        if is_archive_name(listing, wban, name) {
            let (header, row) = choose|header: int, row: int|
                first_occurrence(listing, header_end(), header) && #[trigger] first_entry_for(
                    listing,
                    header,
                    row,
                    wban,
                );
            assert(occurs_at(listing, header_end(), header));
        }
    }
}

proof fn lemma_no_name_without_entry(listing: Seq<u8>, wban: Seq<u8>, header: int)
    requires
        first_occurrence(listing, header_end(), header),
        no_entry_for(listing, header, wban),
    ensures
        no_archive_name(listing, wban),
{
    assert forall|name: Seq<u8>| !is_archive_name(listing, wban, name) by {
        if is_archive_name(listing, wban, name) {
            let (other, row) = choose|other: int, row: int|
                first_occurrence(listing, header_end(), other) && #[trigger] first_entry_for(
                    listing,
                    other,
                    row,
                    wban,
                );
            lemma_first_occurrence_is_unique(listing, header_end(), header, other);
            assert(entry_is_for(listing, header, row, wban));
        }
    }
}

proof fn lemma_name_in_first_entry(listing: Seq<u8>, wban: Seq<u8>, header: int, row: int)
    requires
        first_occurrence(listing, header_end(), header),
        first_entry_for(listing, header, row, wban),
    ensures
        forall|name: Seq<u8>|
            is_archive_name(listing, wban, name) <==> name_in_entry(
                listing,
                entry_start(header, row),
            ) == Some(name),
{
    assert forall|name: Seq<u8>| is_archive_name(listing, wban, name) implies name_in_entry(
        listing,
        entry_start(header, row),
    ) == Some(name) by {
        let (other, any) = choose|other: int, any: int|
            first_occurrence(listing, header_end(), other) && #[trigger] first_entry_for(
                listing,
                other,
                any,
                wban,
            ) && name_in_entry(listing, entry_start(other, any)) == Some(name);
        lemma_first_occurrence_is_unique(listing, header_end(), header, other);
        lemma_first_entry_is_unique(listing, header, row, any, wban);
    }
}

/// Looks a station up in the directory listing of a year. The entries
/// follow the first `</td></tr>` at a fixed stride; the first whose WBAN
/// number is `wban` gives the name of the station's file. There is no name
/// where the tag is missing, where no entry within the listing is for
/// `wban`, or where the listing ends within the name.
pub fn find_archive_name(listing: &[u8], wban: &[u8]) -> (found: Option<Vec<u8>>)
    ensures
        match found {
            Some(name) => is_archive_name(listing@, wban@, name@),
            None => no_archive_name(listing@, wban@),
        },
{
    let tag: [u8; 10] = [0x3c, 0x2f, 0x74, 0x64, 0x3e, 0x3c, 0x2f, 0x74, 0x72, 0x3e];
    assert(tag@ =~= header_end());
    let header: usize = match find_first(listing, tag.as_slice()) {
        Some(header) => header,
        None => {
            proof {
                lemma_no_name_without_header(listing@, wban@);
            }
            return None;
        },
    };
    if wban.len() != WBAN_WIDTH || listing.len() - header < HEADER_END_TO_FIRST_ENTRY {
        proof {
            assert forall|any: int| !entry_is_for(listing@, header as int, any, wban@) by {
                if any >= 0 {
                    assert(entry_start(header as int, any) >= header + HEADER_END_TO_FIRST_ENTRY)
                        by (nonlinear_arith)
                        requires
                            any >= 0,
                    ;
                }
            }
            lemma_no_name_without_entry(listing@, wban@, header as int);
        }
        return None;
    }
    let mut row: usize = 0;
    let mut start: usize = header + HEADER_END_TO_FIRST_ENTRY;
    while listing.len() - start >= WBAN_START + WBAN_WIDTH
        invariant
            wban@.len() == WBAN_WIDTH,
            first_occurrence(listing@, header_end(), header as int),
            start <= listing.len(),
            row <= start,
            start == entry_start(header as int, row as int),
            forall|earlier: int|
                0 <= earlier < row ==> !entry_is_for(listing@, header as int, earlier, wban@),
        decreases listing.len() - start,
    {
        if matches_at(listing, wban, start + WBAN_START) {
            proof {
                lemma_name_in_first_entry(listing@, wban@, header as int, row as int);
            }
            if listing.len() - start < NAME_START + NAME_WIDTH {
                return None;
            }
            let name: &[u8] = slice_subrange(
                listing,
                start + NAME_START,
                start + NAME_START + NAME_WIDTH,
            );
            return Some(vstd::slice::slice_to_vec(name));
        }
        if listing.len() - start < ENTRY_STRIDE {
            proof {
                assert forall|any: int| !entry_is_for(listing@, header as int, any, wban@) by {
                    if any > row {
                        assert(entry_start(header as int, any) >= start + ENTRY_STRIDE)
                            by (nonlinear_arith)
                            requires
                                any >= row + 1,
                                start == entry_start(header as int, row as int),
                        ;
                    }
                }
                lemma_no_name_without_entry(listing@, wban@, header as int);
            }
            return None;
        }
        start = start + ENTRY_STRIDE;
        row = row + 1;
    }
    proof {
        assert forall|any: int| !entry_is_for(listing@, header as int, any, wban@) by {
            if any >= row {
                assert(entry_start(header as int, any) >= start) by (nonlinear_arith)
                    requires
                        any >= row,
                        start == entry_start(header as int, row as int),
                ;
            }
        }
        lemma_no_name_without_entry(listing@, wban@, header as int);
    }
    None
}

/// Cuts `text` at its newlines. The result holds every piece, in order and
/// without the newlines: one piece more than there are newlines, so that
/// the pieces joined by newlines are the text again. Where the text ends
/// with a newline the last piece is empty.
pub fn record_lines(text: &[u8]) -> (lines: Vec<Vec<u8>>)
    ensures
        lines_are(lines@, pieces(text@)),
{
    let mut lines: Vec<Vec<u8>> = Vec::new();
    let mut current: Vec<u8> = Vec::new();
    let mut index: usize = 0;
    assert(text@.take(0) =~= Seq::empty());
    while index < text.len()
        invariant
            index <= text.len(),
            lines@.len() + 1 == pieces(text@.take(index as int)).len(),
            lines_are(lines@, pieces(text@.take(index as int)).drop_last()),
            current@ == pieces(text@.take(index as int)).last(),
        decreases text.len() - index,
    {
        let byte: u8 = text[index];
        let ghost before = pieces(text@.take(index as int));
        let ghost after = pieces(text@.take(index + 1));
        proof {
            assert(text@.take(index + 1).drop_last() =~= text@.take(index as int));
            assert(text@.take(index + 1).last() == byte);
        }
        if byte == NEWLINE {
            lines.push(current);
            current = Vec::new();
            proof {
                assert(after == before.push(Seq::empty()));
                assert(after.drop_last() =~= before);
                assert forall|i: int| 0 <= i < lines@.len() implies (#[trigger] lines@[i])@
                    == after.drop_last()[i] by {
                    if i < lines@.len() - 1 {
                        assert(before.drop_last()[i] == before[i]);
                    }
                }
            }
        } else {
            current.push(byte);
            proof {
                assert(after == before.drop_last().push(before.last().push(byte)));
                assert(after.drop_last() =~= before.drop_last());
            }
        }
        index = index + 1;
    }
    assert(text@.take(index as int) =~= text@);
    lines.push(current);
    assert forall|i: int| 0 <= i < lines@.len() implies (#[trigger] lines@[i])@ == pieces(
        text@,
    )[i] by {
        if i < lines@.len() - 1 {
            assert(pieces(text@).drop_last()[i] == pieces(text@)[i]);
        }
    }
    lines
}

/// Leaves out the last of the lines, if there is any: the piece after the
/// last newline of a file, which is empty where the file ends with a
/// newline, is no record.
pub fn without_last(lines: Vec<Vec<u8>>) -> (kept: Vec<Vec<u8>>)
    ensures
        kept@ == if lines@.len() > 0 {
            lines@.drop_last()
        } else {
            lines@
        },
{
    let mut kept: Vec<Vec<u8>> = lines;
    kept.pop();
    kept
}

/// The text that a gzip file unpacks to, as `flate2` reads it: the first
/// member of the file, where it is whole, passes its checksum and is valid
/// UTF-8; nothing where it is not.
pub uninterp spec fn gunzipped(compressed: Seq<u8>) -> Option<Seq<u8>>;

/// Unpacks a gzip file held in memory, with `flate2::read::GzDecoder::new`
/// and `std::io::Read::read_to_string` on the decoder. Nothing is proved of
/// the decoder: the contract only gives its result the name `gunzipped`,
/// which says that the same bytes always unpack to the same text, or always
/// fail to.
#[verifier::external_body]
fn gunzip(compressed: &[u8]) -> (text: Option<Vec<u8>>)
    ensures
        gunzipped(compressed@) == match text {
            Some(bytes) => Some(bytes@),
            None => None,
        },
{
    let mut decoder = flate2::read::GzDecoder::new(compressed);
    let mut text = String::new();
    match std::io::Read::read_to_string(&mut decoder, &mut text) {
        Ok(_) => Some(text.into_bytes()),
        Err(_) => None,
    }
}

/// The lines of a station's file as the archive serves it, compressed.
/// There are lines exactly where the file unpacks, and they are all the
/// pieces of the unpacked text, the one after the last newline too.
pub fn station_lines(compressed: &[u8]) -> (lines: Option<Vec<Vec<u8>>>)
    ensures
        match gunzipped(compressed@) {
            Some(text) => lines is Some && lines_are(lines->Some_0@, pieces(text)),
            None => lines is None,
        },
{
    match gunzip(compressed) {
        Some(text) => Some(record_lines(text.as_slice())),
        None => None,
    }
}

} // verus!
