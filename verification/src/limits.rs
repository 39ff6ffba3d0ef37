//! The limits of the parser: which texts it can be given.

use std::collections::HashSet;

use vstd::prelude::*;
use vstd::utf8::encode_utf8;

verus! {

/// Whether byte positions in `text` are within the limits of tree-sitter and of
/// line-index, which hold them in 32 bits.
pub open spec fn is_addressable(text: Seq<char>) -> bool {
    encode_utf8(text).len() < u32::MAX
}

/// Whether a byte ends a line. A carriage return before a newline ends a line of
/// its own.
pub open spec fn is_break(byte: u8) -> bool {
    byte == 0x0a || byte == 0x0d
}

/// Whether a byte is a space or a tab.
pub open spec fn is_blank(byte: u8) -> bool {
    byte == 0x20 || byte == 0x09
}

/// Whether a line begins at position `i`. A byte order mark belongs to no line.
pub open spec fn is_line_start(bytes: Seq<u8>, i: int) -> bool {
    ||| i == 0
    ||| i == 3 && bytes[0] == 0xef && bytes[1] == 0xbb && bytes[2] == 0xbf
    ||| is_break(bytes[i - 1])
}

/// Whether the byte at position `i` is an indicator `-`, `?` or `:` that opens a
/// block: one that ends the text or stands before white space or a zero byte.
pub open spec fn is_opener(bytes: Seq<u8>, i: int) -> bool {
    &&& bytes[i] == 0x2d || bytes[i] == 0x3f || bytes[i] == 0x3a
    &&& i + 1 == bytes.len() || is_blank(bytes[i + 1]) || is_break(bytes[i + 1]) || bytes[i + 1]
        == 0
}

/// Whether a level of block structure can begin at position `j` of the line that
/// begins at position `i`: an opener stands there, or the first character of the
/// line that is neither a blank nor an opener.
pub open spec fn is_level(bytes: Seq<u8>, i: int, j: int) -> bool {
    &&& is_line_start(bytes, i)
    &&& 0 <= i <= j < bytes.len()
    &&& forall|k: int|
        i <= k < j ==> is_blank(#[trigger] bytes[k]) || is_opener(bytes, k)
    &&& !is_blank(bytes[j])
    &&& !is_break(bytes[j])
}

/// Whether a level can begin at a column.
pub open spec fn is_level_column(bytes: Seq<u8>, column: int) -> bool {
    exists|i: int| #[trigger] is_level(bytes, i, i + column)
}

/// The columns at which levels can begin.
pub open spec fn level_columns(bytes: Seq<u8>) -> Set<usize> {
    Set::new(|column: usize| is_level_column(bytes, column as int))
}

/// Whether an opener stands behind position `i` and before position `j`.
pub open spec fn is_behind_opener(bytes: Seq<u8>, i: int, j: int) -> bool {
    exists|k: int| i <= k < j && #[trigger] is_opener(bytes, k)
}

/// Whether levels that begin behind an opener begin at columns that 16 bits with a
/// sign hold, so that their columns rise along the line.
pub open spec fn columns_rise(bytes: Seq<u8>) -> bool {
    forall|i: int, j: int| #[trigger]
        is_level(bytes, i, j) && is_behind_opener(bytes, i, j) ==> j - i < 32768
}

/// How many of the first `n` bytes end a line.
pub open spec fn break_count(bytes: Seq<u8>, n: int) -> nat
    decreases n,
{
    if n > 0 {
        break_count(bytes, n - 1) + if is_break(bytes[n - 1]) {
            1nat
        } else {
            0nat
        }
    } else {
        0
    }
}

/// In how many runs of lines the columns of open levels rise, for a text with
/// `breaks` line breaks. Lines are numbered in 16 bits with a sign. A run can end
/// where the number becomes negative, which is after 32768 breaks and then every
/// 65536, and where the number of the last line with a key can come up again,
/// which is after 65535 breaks and then every 65536.
pub open spec fn run_count(breaks: nat) -> nat {
    1 + (breaks + 32768) / 65536 + (breaks + 1) / 65536
}

/// Whether few enough levels of block structure can be open at a time. The YAML
/// grammar aborts the process where these are 254 or more.
///
/// The columns of open levels rise, and at most two of them begin at the same
/// column, a mapping and a sequence in it. A block scalar is one level more, and so
/// is what is taken for a level where a run of lines ends.
pub open spec fn is_shallow(bytes: Seq<u8>) -> bool {
    &&& columns_rise(bytes)
    &&& (2 * level_columns(bytes).len() + 1) * run_count(
        break_count(bytes, bytes.len() as int),
    ) <= 253
}

/// Whether `text` is within the limits of the parser.
pub open spec fn is_readable(text: Seq<char>) -> bool {
    is_addressable(text) && is_shallow(encode_utf8(text))
}

/// Whether every line of `text` has fewer than 32768 characters, so that 16 bits
/// with a sign hold its columns.
pub open spec fn columns_fit(text: Seq<char>) -> bool {
    forall|i: int| #![trigger text[i]]
        0 <= i && i + 32768 <= text.len() ==> exists|j: int|
            i <= j < i + 32768 && (#[trigger] text[j] == '\n' || text[j] == '\r')
}

/// Returns how many bytes end a line.
fn count_breaks(bytes: &[u8]) -> (count: usize)
    ensures
        count == break_count(bytes@, bytes@.len() as int),
{
    let mut count: usize = 0;
    let mut i: usize = 0;
    while i < bytes.len()
        invariant
            i <= bytes@.len(),
            count <= i,
            count == break_count(bytes@, i as int),
        decreases bytes@.len() - i,
    {
        if bytes[i] == 0x0a || bytes[i] == 0x0d {
            count += 1;
        }
        i += 1;
    }
    count
}

/// Collects the columns at which levels can begin in the line that begins at
/// position `start`. Returns whether those behind an opener are small enough.
fn collect_columns(bytes: &[u8], start: usize, columns: &mut HashSet<usize>) -> (rising: bool)
    requires
        start <= bytes@.len(),
        is_line_start(bytes@, start as int),
    ensures
        forall|column: usize| #[trigger]
            final(columns)@.contains(column) <==> old(columns)@.contains(column) || is_level(
                bytes@,
                start as int,
                start + column,
            ),
        rising <==> forall|j: int| #[trigger]
            is_level(bytes@, start as int, j) && is_behind_opener(bytes@, start as int, j) ==> j
                - start < 32768,
{
    broadcast use vstd::std_specs::hash::group_hash_axioms;

    let ghost first = start as int;
    let mut rising = true;
    let mut opened = false;
    let mut i: usize = start;
    while i < bytes.len()
        invariant_except_break
            forall|k: int|
                first <= k < i ==> is_blank(#[trigger] bytes@[k]) || is_opener(bytes@, k),
            opened == is_behind_opener(bytes@, first, i as int),
            forall|column: usize| #[trigger]
                columns@.contains(column) <==> old(columns)@.contains(column) || (first + column
                    < i && is_level(bytes@, first, first + column)),
            rising <==> forall|j: int|
                j < i && #[trigger] is_level(bytes@, first, j) && is_behind_opener(
                    bytes@,
                    first,
                    j,
                ) ==> j - first < 32768,
        invariant
            first == start,
            is_line_start(bytes@, first),
            start <= i <= bytes@.len(),
        ensures
            forall|column: usize| #[trigger]
                columns@.contains(column) <==> old(columns)@.contains(column) || is_level(
                    bytes@,
                    first,
                    first + column,
                ),
            rising <==> forall|j: int| #[trigger]
                is_level(bytes@, first, j) && is_behind_opener(bytes@, first, j) ==> j - first
                    < 32768,
        decreases bytes@.len() - i,
    {
        let byte = bytes[i];
        if byte == 0x20 || byte == 0x09 {
            assert(is_behind_opener(bytes@, first, i + 1) == is_behind_opener(
                bytes@,
                first,
                i as int,
            ));
            assert forall|j: int| #[trigger] is_level(bytes@, first, j) && j < i + 1 implies j
                < i by {}
        } else if byte == 0x0a || byte == 0x0d {
            assert forall|j: int| #[trigger] is_level(bytes@, first, j) implies j < i by {
                if j > i {
                    assert(is_blank(bytes@[i as int]) || is_opener(bytes@, i as int));
                }
            }
            break;
        } else {
            assert(is_level(bytes@, first, i as int));
            columns.insert(i - start);
            if opened && i - start >= 32768 {
                rising = false;
            }
            let opens = (byte == 0x2d || byte == 0x3f || byte == 0x3a) && (i + 1 == bytes.len()
                || bytes[i + 1] == 0x20 || bytes[i + 1] == 0x09 || bytes[i + 1] == 0x0a || bytes[i
                + 1] == 0x0d || bytes[i + 1] == 0);
            assert(opens == is_opener(bytes@, i as int));
            if !opens {
                assert forall|j: int| #[trigger] is_level(bytes@, first, j) implies j <= i by {
                    if j > i {
                        assert(is_blank(bytes@[i as int]) || is_opener(bytes@, i as int));
                    }
                }
                break;
            }
            opened = true;
        }
        i += 1;
    }
    rising
}

/// Returns whether a source is within the limits of the parser, so that a
/// document can be read off it.
pub fn can_be_read(source: &str) -> (readable: bool)
    ensures
        readable == is_readable(source@),
{
    broadcast use vstd::std_specs::hash::group_hash_axioms;

    let bytes = source.as_bytes();
    if bytes.len() as u64 >= u32::MAX as u64 {
        return false;
    }
    let mut columns: HashSet<usize> = HashSet::new();
    let mut rising = true;
    let mut i: usize = 0;
    while i <= bytes.len()
        invariant
            bytes@ == encode_utf8(source@),
            bytes@.len() < u32::MAX,
            i <= bytes@.len() + 1,
            forall|column: usize| #[trigger]
                columns@.contains(column) <==> exists|j: int|
                    j < i && #[trigger] is_level(bytes@, j, j + column),
            rising <==> forall|j: int, k: int|
                j < i && #[trigger] is_level(bytes@, j, k) && is_behind_opener(bytes@, j, k) ==> k
                    - j < 32768,
        decreases bytes@.len() + 1 - i,
    {
        let starts = i == 0 || (i == 3 && bytes[0] == 0xef && bytes[1] == 0xbb && bytes[2] == 0xbf)
            || bytes[i - 1] == 0x0a || bytes[i - 1] == 0x0d;
        assert(starts == is_line_start(bytes@, i as int));
        if starts && !collect_columns(bytes, i, &mut columns) {
            rising = false;
        }
        i += 1;
    }
    assert(columns@ =~= level_columns(bytes@));
    proof {
        lemma_break_count(bytes@, bytes@.len() as int);
        lemma_column_count(bytes@);
    }
    let breaks: u64 = count_breaks(bytes) as u64;
    let runs: u64 = 1 + (breaks + 32768) / 65536 + (breaks + 1) / 65536;
    let levels: u64 = 2 * columns.len() as u64 + 1;
    assert(levels * runs <= 0x3_0000_0000 * 0x4_0000) by (nonlinear_arith)
        requires
            0 <= levels <= 0x3_0000_0000,
            0 <= runs <= 0x4_0000,
    ;
    rising && levels * runs <= 253
}

/// No more lines end than there are bytes.
pub proof fn lemma_break_count(bytes: Seq<u8>, n: int)
    requires
        0 <= n,
    ensures
        break_count(bytes, n) <= n,
    decreases n,
{
    if n > 0 {
        lemma_break_count(bytes, n - 1);
    }
}

/// Levels begin at no more columns than there are bytes.
pub proof fn lemma_column_count(bytes: Seq<u8>)
    requires
        bytes.len() <= usize::MAX,
    ensures
        level_columns(bytes).finite(),
        level_columns(bytes).len() <= bytes.len(),
{
    let all = Seq::new(bytes.len(), |i: int| i as usize);
    all.lemma_cardinality_of_set();
    assert forall|column: usize| level_columns(bytes).contains(column) implies all.to_set().contains(
        column,
    ) by {
        assert(all[column as int] == column);
    }
    vstd::seq_lib::seq_to_set_is_finite(all);
    vstd::set_lib::lemma_len_subset(level_columns(bytes), all.to_set());
}

} // verus!
