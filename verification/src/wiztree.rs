//! The WizTree CSV source.
//!
//! The file is UTF-8: one vendor banner line to skip, then a CSV header
//! naming the columns, then one record per file or directory. Only the
//! `File Name` and `Size` columns matter; a trailing backslash on the name
//! marks a directory, which is dropped, as are records of size zero and
//! records whose size or name does not parse.

use crate::error::AppError;
use vstd::prelude::*;
use vstd::string::StringSliceAdditionalSpecFns;
use vstd::utf8::valid_utf8;

verus! {

/// A double quote.
pub const QUOTE: u8 = 34;

/// A comma.
pub const COMMA: u8 = 44;

/// A line feed.
pub const LF: u8 = 10;

/// A carriage return.
pub const CR: u8 = 13;

/// A backslash.
pub const BACKSLASH: u8 = 92;

/// What the parser emits at the end of the input: the trailing record, if
/// any of it was started.
pub open spec fn csv_finish(
    field: Seq<u8>,
    row: Seq<Seq<u8>>,
    rows: Seq<Seq<Seq<u8>>>,
) -> Seq<Seq<Seq<u8>>> {
    if row.len() == 0 && field.len() == 0 {
        rows
    } else {
        rows.push(row.push(field))
    }
}

/// The CSV state machine: fields split on commas, records on line feeds,
/// carriage returns dropped, quoted fields with doubled quotes for a
/// literal quote.
pub open spec fn csv_run(
    input: Seq<u8>,
    i: nat,
    inq: bool,
    field: Seq<u8>,
    row: Seq<Seq<u8>>,
    rows: Seq<Seq<Seq<u8>>>,
) -> Seq<Seq<Seq<u8>>>
    decreases (if i < input.len() {
        input.len() - i
    } else {
        0
    }),
{
    if i >= input.len() {
        csv_finish(field, row, rows)
    } else {
        let b = input[i as int];
        if inq {
            if b == QUOTE {
                if i + 1 < input.len() && input[i + 1 as int] == QUOTE {
                    csv_run(input, i + 2, true, field.push(QUOTE), row, rows)
                } else {
                    csv_run(input, i + 1, false, field, row, rows)
                }
            } else {
                csv_run(input, i + 1, true, field.push(b), row, rows)
            }
        } else {
            if b == QUOTE {
                csv_run(input, i + 1, true, field, row, rows)
            } else if b == COMMA {
                csv_run(input, i + 1, false, Seq::empty(), row.push(field), rows)
            } else if b == LF {
                csv_run(input, i + 1, false, Seq::empty(), Seq::empty(), rows.push(row.push(field)))
            } else if b == CR {
                csv_run(input, i + 1, false, field, row, rows)
            } else {
                csv_run(input, i + 1, false, field.push(b), row, rows)
            }
        }
    }
}

/// Every record of a CSV input, each a list of fields.
pub open spec fn csv_rows(input: Seq<u8>) -> Seq<Seq<Seq<u8>>> {
    csv_run(input, 0, false, Seq::empty(), Seq::empty(), Seq::empty())
}

/// The byte sequences of a record's fields.
pub open spec fn fields_view(r: Seq<Vec<u8>>) -> Seq<Seq<u8>> {
    r.map_values(|f: Vec<u8>| f@)
}

/// The field lists of a record list.
pub open spec fn rows_view(rs: Seq<Vec<Vec<u8>>>) -> Seq<Seq<Seq<u8>>> {
    rs.map_values(|r: Vec<Vec<u8>>| fields_view(r@))
}

/// Parses a CSV input into its records.
pub fn parse_csv(input: &[u8]) -> (r: Vec<Vec<Vec<u8>>>)
    ensures
        rows_view(r@) == csv_rows(input@),
{
    let n: usize = input.len();
    let mut rows: Vec<Vec<Vec<u8>>> = Vec::new();
    let mut row: Vec<Vec<u8>> = Vec::new();
    let mut field: Vec<u8> = Vec::new();
    let mut inq: bool = false;
    let mut i: usize = 0;
    proof {
        assert(fields_view(row@) =~= Seq::<Seq<u8>>::empty());
        assert(rows_view(rows@) =~= Seq::<Seq<Seq<u8>>>::empty());
    }
    while i < n
        invariant
            i <= n,
            n == input@.len(),
            csv_rows(input@) == csv_run(
                input@,
                i as nat,
                inq,
                field@,
                fields_view(row@),
                rows_view(rows@),
            ),
        decreases n - i,
    {
        let b = input[i];
        let ghost gfield = field@;
        let ghost grow = fields_view(row@);
        let ghost grows = rows_view(rows@);
        if inq {
            if b == QUOTE {
                if i + 1 < n && input[i + 1] == QUOTE {
                    field.push(QUOTE);
                    i = i + 2;
                } else {
                    inq = false;
                    i = i + 1;
                }
            } else {
                field.push(b);
                i = i + 1;
            }
        } else {
            if b == QUOTE {
                inq = true;
                i = i + 1;
            } else if b == COMMA {
                let done = field;
                field = Vec::new();
                row.push(done);
                proof {
                    assert(fields_view(row@) =~= grow.push(gfield));
                }
                i = i + 1;
            } else if b == LF {
                let done = field;
                field = Vec::new();
                row.push(done);
                proof {
                    assert(fields_view(row@) =~= grow.push(gfield));
                }
                let done_row = row;
                let ghost gdone = fields_view(done_row@);
                row = Vec::new();
                rows.push(done_row);
                proof {
                    assert(fields_view(row@) =~= Seq::<Seq<u8>>::empty());
                    assert(rows_view(rows@) =~= grows.push(gdone));
                    assert(rows_view(rows@) == grows.push(grow.push(gfield)));
                }
                i = i + 1;
            } else if b == CR {
                i = i + 1;
            } else {
                field.push(b);
                i = i + 1;
            }
        }
    }
    if row.len() > 0 || field.len() > 0 {
        let ghost gfield = field@;
        let ghost grow = fields_view(row@);
        let ghost grows = rows_view(rows@);
        let done = field;
        row.push(done);
        proof {
            assert(fields_view(row@) =~= grow.push(gfield));
        }
        let done_row = row;
        let ghost gdone = fields_view(done_row@);
        rows.push(done_row);
        proof {
            assert(rows_view(rows@) =~= grows.push(gdone));
            assert(rows_view(rows@) == grows.push(grow.push(gfield)));
        }
    }
    rows
}

/// The position of the first field equal to `target`, or -1.
pub open spec fn find_from(row: Seq<Seq<u8>>, target: Seq<u8>, i: nat) -> int
    decreases (if i < row.len() {
        row.len() - i
    } else {
        0
    }),
{
    if i >= row.len() {
        -1
    } else if row[i as int] == target {
        i as int
    } else {
        find_from(row, target, i + 1)
    }
}

/// Decides equality of two byte lists.
fn bytes_eq(a: &[u8], b: &[u8]) -> (r: bool)
    ensures
        r == (a@ == b@),
{
    if a.len() != b.len() {
        return false;
    }
    let n: usize = a.len();
    let mut i: usize = 0;
    while i < n
        invariant
            i <= n,
            n == a@.len() == b@.len(),
            forall|j: int| 0 <= j < i ==> a@[j] == b@[j],
        decreases n - i,
    {
        if a[i] != b[i] {
            return false;
        }
        i = i + 1;
    }
    proof {
        assert(a@ =~= b@);
    }
    true
}

/// Finds the first field equal to `target` in a record.
fn find_column(row: &Vec<Vec<u8>>, target: &[u8]) -> (r: Option<usize>)
    ensures
        r is Some <==> find_from(fields_view(row@), target@, 0) >= 0,
        r matches Some(i) ==> i as int == find_from(fields_view(row@), target@, 0) && i
            < row@.len(),
{
    let n: usize = row.len();
    let mut i: usize = 0;
    while i < n
        invariant
            i <= n,
            n == row@.len(),
            find_from(fields_view(row@), target@, 0) == find_from(
                fields_view(row@),
                target@,
                i as nat,
            ),
        decreases n - i,
    {
        if bytes_eq(row[i].as_slice(), target) {
            return Some(i);
        }
        i = i + 1;
    }
    None
}

/// Whether a byte is one of the blanks trimmed around the size field.
pub open spec fn is_blank(b: u8) -> bool {
    b == 32 || b == 9 || b == CR || b == LF
}

/// The input with leading blanks removed.
pub open spec fn trim_front(s: Seq<u8>) -> Seq<u8>
    decreases s.len(),
{
    if s.len() > 0 && is_blank(s[0]) {
        trim_front(s.skip(1))
    } else {
        s
    }
}

/// The input with trailing blanks removed.
pub open spec fn trim_back(s: Seq<u8>) -> Seq<u8>
    decreases s.len(),
{
    if s.len() > 0 && is_blank(s.last()) {
        trim_back(s.drop_last())
    } else {
        s
    }
}

/// The input with blanks removed on both sides.
pub open spec fn trim_spec(s: Seq<u8>) -> Seq<u8> {
    trim_back(trim_front(s))
}

/// Trims blanks from both ends.
fn trim_bytes(s: &[u8]) -> (r: Vec<u8>)
    ensures
        r@ == trim_spec(s@),
{
    let n: usize = s.len();
    let mut lo: usize = 0;
    proof {
        assert(s@.skip(0) =~= s@);
    }
    while lo < n && (s[lo] == 32 || s[lo] == 9 || s[lo] == CR || s[lo] == LF)
        invariant
            lo <= n,
            n == s@.len(),
            trim_front(s@) == trim_front(s@.skip(lo as int)),
        decreases n - lo,
    {
        proof {
            assert(s@.skip(lo as int)[0] == s@[lo as int]);
            assert(s@.skip(lo as int).skip(1) =~= s@.skip(lo + 1));
        }
        lo = lo + 1;
    }
    proof {
        if lo < n {
            assert(!is_blank(s@.skip(lo as int)[0]));
        }
        assert(trim_front(s@) == s@.skip(lo as int));
    }
    let mut hi: usize = n;
    while hi > lo && (s[hi - 1] == 32 || s[hi - 1] == 9 || s[hi - 1] == CR || s[hi - 1] == LF)
        invariant
            lo <= hi <= n,
            n == s@.len(),
            trim_front(s@) == s@.skip(lo as int),
            trim_back(s@.skip(lo as int)) == trim_back(s@.subrange(lo as int, hi as int)),
        decreases hi,
    {
        proof {
            let cur = s@.subrange(lo as int, hi as int);
            assert(cur.last() == s@[hi - 1]);
            assert(cur.drop_last() =~= s@.subrange(lo as int, hi - 1));
        }
        hi = hi - 1;
    }
    proof {
        let cur = s@.subrange(lo as int, hi as int);
        if hi > lo {
            assert(cur.last() == s@[hi - 1]);
            assert(!is_blank(cur.last()));
        }
        assert(trim_back(cur) == cur);
        assert(trim_spec(s@) == s@.subrange(lo as int, hi as int));
    }
    let mut out: Vec<u8> = Vec::new();
    let mut k: usize = lo;
    while k < hi
        invariant
            lo <= k <= hi <= n,
            n == s@.len(),
            out@ == s@.subrange(lo as int, k as int),
        decreases hi - k,
    {
        out.push(s[k]);
        proof {
            assert(s@.subrange(lo as int, k + 1) =~= s@.subrange(lo as int, k as int).push(
                s@[k as int],
            ));
        }
        k = k + 1;
    }
    out
}

/// Whether the bytes are one or more decimal digits.
pub open spec fn is_digits(s: Seq<u8>) -> bool {
    s.len() > 0 && forall|i: int| 0 <= i < s.len() ==> 48 <= #[trigger] s[i] <= 57
}

/// The value of one digit byte; bytes outside the digits count as zero so
/// that the value is monotone in the length.
pub open spec fn digit_of(b: u8) -> nat {
    if 48 <= b <= 57 {
        (b - 48) as nat
    } else {
        0
    }
}

/// The number the digits denote.
pub open spec fn digits_val(s: Seq<u8>) -> nat
    decreases s.len(),
{
    if s.len() == 0 {
        0
    } else {
        digits_val(s.drop_last()) * 10 + digit_of(s.last())
    }
}

/// What `Size` fields parse to: a value only for all-digit text whose value
/// fits in 64 bits.
pub open spec fn parse_u64_spec(s: Seq<u8>) -> Option<u64> {
    if is_digits(s) && digits_val(s) <= u64::MAX {
        Some(digits_val(s) as u64)
    } else {
        None
    }
}

/// A longer digit string never denotes a smaller number.
proof fn lemma_digits_val_mono(s: Seq<u8>, n: int, m: int)
    requires
        0 <= n <= m <= s.len(),
    ensures
        digits_val(s.take(n)) <= digits_val(s.take(m)),
    decreases m - n,
{
    if n < m {
        lemma_digits_val_mono(s, n, m - 1);
        assert(s.take(m).drop_last() =~= s.take(m - 1));
        assert(digits_val(s.take(m)) >= digits_val(s.take(m - 1))) by (nonlinear_arith)
            requires
                digits_val(s.take(m)) == digits_val(s.take(m - 1)) * 10 + digit_of(s.take(
                    m,
                ).last()),
        ;
    }
}

/// Parses a decimal byte string.
fn parse_u64_bytes(s: &[u8]) -> (r: Option<u64>)
    ensures
        r == parse_u64_spec(s@),
{
    let n: usize = s.len();
    if n == 0 {
        return None;
    }
    let mut acc: u64 = 0;
    let mut i: usize = 0;
    proof {
        assert(s@.take(0) =~= Seq::<u8>::empty());
    }
    while i < n
        invariant
            i <= n,
            n == s@.len(),
            acc == digits_val(s@.take(i as int)),
            forall|j: int| 0 <= j < i ==> 48 <= #[trigger] s@[j] <= 57,
        decreases n - i,
    {
        let b = s[i];
        if !(48 <= b && b <= 57) {
            return None;
        }
        let d: u64 = (b - 48) as u64;
        proof {
            assert(s@.take(i + 1).drop_last() =~= s@.take(i as int));
            assert(s@.take(i + 1).last() == s@[i as int]);
        }
        if acc > (u64::MAX - d) / 10 {
            proof {
                let big = digits_val(s@.take(i + 1));
                assert(big == acc * 10 + d);
                assert(acc * 10 + d > u64::MAX) by (nonlinear_arith)
                    requires
                        acc > (u64::MAX - d) / 10,
                        0 <= d <= 9,
                        acc >= 0,
                ;
                lemma_digits_val_mono(s@, i + 1, s@.len() as int);
                assert(s@.take(s@.len() as int) =~= s@);
                assert(digits_val(s@) > u64::MAX);
            }
            return None;
        }
        acc = acc * 10 + d;
        i = i + 1;
    }
    proof {
        assert(s@.take(n as int) =~= s@);
        assert(is_digits(s@));
    }
    Some(acc)
}

/// Relies on `core::str::from_utf8`: it succeeds exactly on valid UTF-8,
/// and the string's byte form is the input.
#[verifier::external_body]
fn string_from_utf8(bytes: &[u8]) -> (r: Option<String>)
    ensures
        r is Some <==> valid_utf8(bytes@),
        r matches Some(s) ==> vstd::utf8::encode_utf8(s@) == bytes@,
{
    match core::str::from_utf8(bytes) {
        Ok(s) => Some(String::from(s)),
        Err(_) => None,
    }
}

/// The bytes of the `File Name` column label.
pub open spec fn file_name_col() -> Seq<u8> {
    seq![70u8, 105u8, 108u8, 101u8, 32u8, 78u8, 97u8, 109u8, 101u8]
}

/// The bytes of the `Size` column label.
pub open spec fn size_col() -> Seq<u8> {
    seq![83u8, 105u8, 122u8, 101u8]
}

/// Whether a CSV input carries the two required columns in its second
/// record (the first is the vendor banner).
pub open spec fn wiztree_header_ok(csv: Seq<u8>) -> bool {
    let rows = csv_rows(csv);
    &&& rows.len() >= 2
    &&& find_from(rows[1], file_name_col(), 0) >= 0
    &&& find_from(rows[1], size_col(), 0) >= 0
}

/// What one data record contributes: its path bytes and size, or nothing
/// when the record is short, the size missing, zero or overlong, the name
/// a directory's (trailing backslash) or not UTF-8.
pub open spec fn row_entry(row: Seq<Seq<u8>>, fi: int, si: int) -> Option<(Seq<u8>, u64)> {
    if 0 <= fi < row.len() && 0 <= si < row.len() {
        let path = row[fi];
        match parse_u64_spec(trim_spec(row[si])) {
            Option::None => None,
            Option::Some(size) => {
                if size == 0 {
                    None
                } else if path.len() > 0 && path.last() == BACKSLASH {
                    None
                } else if valid_utf8(path) {
                    Some((path, size))
                } else {
                    None
                }
            },
        }
    } else {
        None
    }
}

/// The entries of the data records from index `k` on.
pub open spec fn entries_from(rows: Seq<Seq<Seq<u8>>>, fi: int, si: int, k: nat) -> Seq<
    (Seq<u8>, u64),
>
    decreases (if k < rows.len() {
        rows.len() - k
    } else {
        0
    }),
{
    if k >= rows.len() {
        Seq::empty()
    } else {
        let rest = entries_from(rows, fi, si, k + 1);
        match row_entry(rows[k as int], fi, si) {
            Option::None => rest,
            Option::Some(e) => seq![e] + rest,
        }
    }
}

/// Every `(path, size)` pair a WizTree CSV yields, path still in bytes.
pub open spec fn wiztree_raw(csv: Seq<u8>) -> Seq<(Seq<u8>, u64)> {
    let rows = csv_rows(csv);
    entries_from(rows, find_from(rows[1], file_name_col(), 0), find_from(rows[1], size_col(), 0), 2)
}

/// The byte form of built entries.
pub open spec fn bytes_of_entries(es: Seq<(String, u64)>) -> Seq<(Seq<u8>, u64)> {
    es.map_values(|e: (String, u64)| (vstd::utf8::encode_utf8(e.0@), e.1))
}

/// Extracts the `(path, size)` pairs of a WizTree CSV, in record order.
///
/// Fails, with the same error the header-reading step of a scan reports,
/// exactly when the input has no header record or the header lacks one of
/// the two required columns.
pub fn wiztree_entries(csv: &[u8]) -> (r: Result<Vec<(String, u64)>, AppError>)
    ensures
        r is Ok <==> wiztree_header_ok(csv@),
        r matches Ok(es) ==> bytes_of_entries(es@) == wiztree_raw(csv@),
        r is Err ==> r matches Err(AppError::Other { .. }),
{
    let rows = parse_csv(csv);
    let ghost grows = rows_view(rows@);
    if rows.len() < 2 {
        return Err(
            AppError::Other { message: String::from_str("Failed to read CSV headers") },
        );
    }
    proof {
        assert(grows[1] == fields_view(rows@[1]@));
    }
    let fi = match find_column(&rows[1], "File Name".as_bytes()) {
        Some(i) => i,
        None => {
            proof {
                reveal_strlit("File Name");
                broadcast use vstd::string::is_ascii_spec_bytes;

                assert("File Name"@.len() == 9);
                assert(vstd::string::is_ascii("File Name"));
                assert("File Name".spec_bytes() =~= file_name_col());
            }
            return Err(
                AppError::Other {
                    message: String::from_str("Missing 'File Name' column"),
                },
            );
        },
    };
    let si = match find_column(&rows[1], "Size".as_bytes()) {
        Some(i) => i,
        None => {
            proof {
                reveal_strlit("Size");
                broadcast use vstd::string::is_ascii_spec_bytes;

                assert("Size"@.len() == 4);
                assert(vstd::string::is_ascii("Size"));
                assert("Size".spec_bytes() =~= size_col());
            }
            return Err(
                AppError::Other { message: String::from_str("Missing 'Size' column") },
            );
        },
    };
    proof {
        reveal_strlit("File Name");
        reveal_strlit("Size");
        broadcast use vstd::string::is_ascii_spec_bytes;

        assert(vstd::string::is_ascii("File Name"));
        assert(vstd::string::is_ascii("Size"));
        assert("File Name".spec_bytes() =~= file_name_col());
        assert("Size".spec_bytes() =~= size_col());
        assert(fi as int == find_from(grows[1], file_name_col(), 0));
        assert(si as int == find_from(grows[1], size_col(), 0));
        assert(wiztree_header_ok(csv@));
    }
    let ghost target = entries_from(grows, fi as int, si as int, 2);
    let mut entries: Vec<(String, u64)> = Vec::new();
    let mut k: usize = 2;
    proof {
        assert(bytes_of_entries(entries@) =~= Seq::<(Seq<u8>, u64)>::empty());
        assert(Seq::<(Seq<u8>, u64)>::empty() + target =~= target);
    }
    while k < rows.len()
        invariant
            2 <= k <= rows@.len(),
            grows == rows_view(rows@),
            target == entries_from(grows, fi as int, si as int, 2),
            target == bytes_of_entries(entries@) + entries_from(
                grows,
                fi as int,
                si as int,
                k as nat,
            ),
        decreases rows@.len() - k,
    {
        let row = &rows[k];
        let ghost grow = fields_view(row@);
        let ghost rest = entries_from(grows, fi as int, si as int, (k + 1) as nat);
        proof {
            assert(grows[k as int] == grow);
        }
        if fi < row.len() && si < row.len() {
            let trimmed = trim_bytes(row[si].as_slice());
            proof {
                assert(grow[si as int] == row@[si as int]@);
                assert(grow[fi as int] == row@[fi as int]@);
            }
            match parse_u64_bytes(trimmed.as_slice()) {
                Some(size) => {
                    if size == 0 {
                        proof {
                            assert(row_entry(grow, fi as int, si as int) is None);
                        }
                    } else {
                        let path_bytes = &row[fi];
                        let is_dir = path_bytes.len() > 0 && path_bytes[path_bytes.len() - 1]
                            == BACKSLASH;
                        if is_dir {
                            proof {
                                assert(grow[fi as int].last() == BACKSLASH);
                                assert(row_entry(grow, fi as int, si as int) is None);
                            }
                        } else {
                            match string_from_utf8(path_bytes.as_slice()) {
                                Some(path) => {
                                    let ghost before = bytes_of_entries(entries@);
                                    entries.push((path, size));
                                    proof {
                                        assert(row_entry(grow, fi as int, si as int) == Some(
                                            (grow[fi as int], size),
                                        ));
                                        assert(bytes_of_entries(entries@) =~= before.push(
                                            (grow[fi as int], size),
                                        ));
                                        assert(before + (seq![(grow[fi as int], size)] + rest)
                                            =~= before.push((grow[fi as int], size)) + rest);
                                    }
                                },
                                None => {
                                    proof {
                                        assert(row_entry(grow, fi as int, si as int) is None);
                                    }
                                },
                            }
                        }
                    }
                },
                None => {
                    proof {
                        assert(row_entry(grow, fi as int, si as int) is None);
                    }
                },
            }
        } else {
            proof {
                assert(row_entry(grow, fi as int, si as int) is None);
            }
        }
        k = k + 1;
    }
    proof {
        assert(entries_from(grows, fi as int, si as int, rows@.len() as nat) =~= Seq::<
            (Seq<u8>, u64),
        >::empty());
        assert(bytes_of_entries(entries@) + Seq::<(Seq<u8>, u64)>::empty() =~= bytes_of_entries(
            entries@,
        ));
    }
    Ok(entries)
}

} // verus!
