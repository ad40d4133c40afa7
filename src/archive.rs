//! Scanning of tar-style archives held in memory.
use vstd::prelude::*;
use vstd::slice::{slice_subrange, slice_to_vec};
use vstd::string::StringSliceAdditionalSpecFns;

use crate::duid::unsigned_digits;
use crate::error::{bytes_result, BootError};

verus! {

/// Headers and payload padding are aligned to blocks of this many bytes.
pub const BLOCK_SIZE: usize = 512;

/// Bytes of a header that must be present for it to be read.
pub const HEADER_LEN: usize = 257;

/// Length of the name field, at the start of a header.
pub const NAME_LEN: usize = 100;

/// Offset of the octal size field within a header.
pub const SIZE_OFFSET: usize = 124;

/// Length of the octal size field.
pub const SIZE_LEN: usize = 12;

/// Whether three bytes encode a white-space character of three bytes
/// (U+1680, U+2000 to U+200A, U+2028, U+2029, U+202F, U+205F, U+3000).
pub open spec fn is_space3(a: u8, b: u8, c: u8) -> bool {
    (a == 0xe1 && b == 0x9a && c == 0x80) || (a == 0xe2 && b == 0x80 && ((0x80 <= c <= 0x8a) || c == 0xa8
        || c == 0xa9 || c == 0xaf)) || (a == 0xe2 && b == 0x81 && c == 0x9f) || (a == 0xe3 && b == 0x80
        && c == 0x80)
}

/// Whether a byte is a one-byte white-space character.
pub open spec fn is_space1(a: u8) -> bool {
    a == 0x20 || (0x09 <= a <= 0x0d)
}

/// Whether two bytes encode a white-space character of two bytes (U+0085, U+00A0).
pub open spec fn is_space2(a: u8, b: u8) -> bool {
    a == 0xc2 && (b == 0x85 || b == 0xa0)
}

/// Length of the character that trimming removes at the start of `s`: a NUL
/// byte, or, when `space`, the UTF-8 encoding of a white-space character;
/// zero when there is none.
pub open spec fn front_len(s: Seq<u8>, space: bool) -> nat {
    if s.len() == 0 {
        0
    } else if !space {
        if s[0] == 0 { 1 } else { 0 }
    } else if is_space1(s[0]) {
        1
    } else if s.len() >= 2 && is_space2(s[0], s[1]) {
        2
    } else if s.len() >= 3 && is_space3(s[0], s[1], s[2]) {
        3
    } else {
        0
    }
}

/// Length of the character that trimming removes at the end of `s`.
pub open spec fn back_len(s: Seq<u8>, space: bool) -> nat {
    let n = s.len() as int;
    if n == 0 {
        0
    } else if !space {
        if s[n - 1] == 0 { 1 } else { 0 }
    } else if is_space1(s[n - 1]) {
        1
    } else if n >= 2 && is_space2(s[n - 2], s[n - 1]) {
        2
    } else if n >= 3 && is_space3(s[n - 3], s[n - 2], s[n - 1]) {
        3
    } else {
        0
    }
}

pub open spec fn trim_front(s: Seq<u8>, space: bool) -> Seq<u8>
    decreases s.len(),
{
    let k = front_len(s, space);
    if k > 0 {
        trim_front(s.subrange(k as int, s.len() as int), space)
    } else {
        s
    }
}

pub open spec fn trim_back(s: Seq<u8>, space: bool) -> Seq<u8>
    decreases s.len(),
{
    let k = back_len(s, space);
    if k > 0 {
        trim_back(s.subrange(0, s.len() - k), space)
    } else {
        s
    }
}

/// `s` without the trimmed bytes at either end.
pub open spec fn trim(s: Seq<u8>, space: bool) -> Seq<u8> {
    trim_back(trim_front(s, space), space)
}

pub open spec fn is_octal_digit(b: u8) -> bool {
    0x30 <= b <= 0x37
}

/// Value of a run of octal digits, most significant first.
pub open spec fn octal_number(s: Seq<u8>) -> nat
    decreases s.len(),
{
    if s.len() == 0 {
        0
    } else {
        octal_number(s.drop_last()) * 8 + (s.last() - 0x30) as nat
    }
}

/// Text read as a base-8 size: an optional `+`, then at least one octal
/// digit, with a value that fits a `usize`; anything else reads as zero.
pub open spec fn octal_size(s: Seq<u8>) -> nat {
    let digits = unsigned_digits(s);
    if digits.len() > 0 && (forall|i: int| 0 <= i < digits.len() ==> is_octal_digit(#[trigger] digits[i]))
        && octal_number(digits) <= usize::MAX {
        octal_number(digits)
    } else {
        0
    }
}

/// The payload size declared by the header at `pos`: the size field with
/// NUL bytes and then white-space characters (encoded in UTF-8) trimmed from
/// both ends, read in base 8.
pub open spec fn header_size(data: Seq<u8>, pos: int) -> nat {
    let field = data.subrange(pos + SIZE_OFFSET, pos + SIZE_OFFSET + SIZE_LEN);
    octal_size(trim(trim(field, false), true))
}

/// The name of the header at `pos`: the name field with NUL bytes trimmed.
pub open spec fn header_name(data: Seq<u8>, pos: int) -> Seq<u8> {
    trim(data.subrange(pos, pos + NAME_LEN), false)
}

pub open spec fn ascii_lower(b: u8) -> u8 {
    if 0x41 <= b <= 0x5a {
        (b + 0x20) as u8
    } else {
        b
    }
}

/// Equality of byte strings up to the case of ASCII letters.
pub open spec fn eq_ignore_case(a: Seq<u8>, b: Seq<u8>) -> bool {
    a.len() == b.len() && forall|i: int| 0 <= i < a.len() ==> #[trigger] ascii_lower(a[i]) == ascii_lower(b[i])
}

/// A payload size rounded up to whole blocks.
pub open spec fn padded(size: nat) -> nat {
    if size % 512 == 0 {
        size
    } else {
        (size + (512 - size % 512)) as nat
    }
}

/// The result of looking `name` up in `data`, scanning from the header at `pos`.
/// A header is read when its first `HEADER_LEN` (257) bytes are present; its
/// payload starts at the end of its `BLOCK_SIZE` (512) byte block and must end
/// within the archive.
pub open spec fn scan_from(data: Seq<u8>, name: Seq<u8>, pos: int) -> Result<Seq<u8>, BootError>
    decreases data.len() - pos,
{
    if pos < 0 || pos + 257 > data.len() {
        Err(BootError::NotFound)
    } else {
        let off = pos + 512;
        let size = header_size(data, pos);
        if off + size > data.len() {
            Err(BootError::Corrupted)
        } else if eq_ignore_case(header_name(data, pos), name) {
            Ok(data.subrange(off, off + size))
        } else if off + padded(size) > data.len() {
            Err(BootError::NotFound)
        } else {
            scan_from(data, name, off + padded(size))
        }
    }
}

/// The payload of the first entry of `data` named `name`, up to case.
pub open spec fn archive_lookup(data: Seq<u8>, name: Seq<u8>) -> Result<Seq<u8>, BootError> {
    scan_from(data, name, 0)
}

fn space3(a: u8, b: u8, c: u8) -> (r: bool)
    ensures
        r == is_space3(a, b, c),
{
    (a == 0xe1 && b == 0x9a && c == 0x80) || (a == 0xe2 && b == 0x80 && ((0x80 <= c && c <= 0x8a) || c
        == 0xa8 || c == 0xa9 || c == 0xaf)) || (a == 0xe2 && b == 0x81 && c == 0x9f) || (a == 0xe3 && b
        == 0x80 && c == 0x80)
}

fn front_len_at(data: &[u8], lo: usize, hi: usize, space: bool) -> (r: usize)
    requires
        lo <= hi <= data@.len(),
    ensures
        r == front_len(data@.subrange(lo as int, hi as int), space),
{
    let ghost s = data@.subrange(lo as int, hi as int);
    if lo == hi {
        return 0;
    }
    assert(s[0] == data@[lo as int]);
    let a = data[lo];
    if !space {
        return if a == 0 { 1 } else { 0 };
    }
    if a == 0x20 || (0x09 <= a && a <= 0x0d) {
        return 1;
    }
    if hi - lo >= 2 {
        assert(s[1] == data@[lo + 1]);
        if a == 0xc2 && (data[lo + 1] == 0x85 || data[lo + 1] == 0xa0) {
            return 2;
        }
    }
    if hi - lo >= 3 {
        assert(s[1] == data@[lo + 1] && s[2] == data@[lo + 2]);
        if space3(a, data[lo + 1], data[lo + 2]) {
            return 3;
        }
    }
    0
}

fn back_len_at(data: &[u8], lo: usize, hi: usize, space: bool) -> (r: usize)
    requires
        lo <= hi <= data@.len(),
    ensures
        r == back_len(data@.subrange(lo as int, hi as int), space),
{
    let ghost s = data@.subrange(lo as int, hi as int);
    if lo == hi {
        return 0;
    }
    assert(s[s.len() - 1] == data@[hi - 1]);
    let z = data[hi - 1];
    if !space {
        return if z == 0 { 1 } else { 0 };
    }
    if z == 0x20 || (0x09 <= z && z <= 0x0d) {
        return 1;
    }
    if hi - lo >= 2 {
        assert(s[s.len() - 2] == data@[hi - 2]);
        if data[hi - 2] == 0xc2 && (z == 0x85 || z == 0xa0) {
            return 2;
        }
    }
    if hi - lo >= 3 {
        assert(s[s.len() - 2] == data@[hi - 2] && s[s.len() - 3] == data@[hi - 3]);
        if space3(data[hi - 3], data[hi - 2], z) {
            return 3;
        }
    }
    0
}

/// The bounds of `data[lo..hi]` once trimmed.
fn trim_range(data: &[u8], lo: usize, hi: usize, space: bool) -> (r: (usize, usize))
    requires
        lo <= hi <= data@.len(),
    ensures
        lo <= r.0 <= r.1 <= hi,
        data@.subrange(r.0 as int, r.1 as int) == trim(data@.subrange(lo as int, hi as int), space),
{
    let mut a: usize = lo;
    loop
        invariant
            lo <= a <= hi <= data@.len(),
            trim_front(data@.subrange(lo as int, hi as int), space) == trim_front(
                data@.subrange(a as int, hi as int),
                space,
            ),
        ensures
            lo <= a <= hi,
            trim_front(data@.subrange(lo as int, hi as int), space) == data@.subrange(a as int, hi as int),
        decreases hi - a,
    {
        let k = front_len_at(data, a, hi, space);
        if k == 0 {
            break ;
        }
        assert(data@.subrange(a as int, hi as int).subrange(k as int, hi - a) =~= data@.subrange(
            a + k,
            hi as int,
        ));
        a = a + k;
    }
    let mut b: usize = hi;
    loop
        invariant
            lo <= a <= b <= hi <= data@.len(),
            trim_back(data@.subrange(a as int, hi as int), space) == trim_back(
                data@.subrange(a as int, b as int),
                space,
            ),
        ensures
            a <= b <= hi,
            trim_back(data@.subrange(a as int, hi as int), space) == data@.subrange(a as int, b as int),
        decreases b - a,
    {
        let k = back_len_at(data, a, b, space);
        if k == 0 {
            break ;
        }
        assert(data@.subrange(a as int, b as int).subrange(0, b - a - k) =~= data@.subrange(
            a as int,
            b - k,
        ));
        b = b - k;
    }
    (a, b)
}

/// A longer prefix of a digit run never has a smaller value.
proof fn lemma_octal_number_grows(s: Seq<u8>, i: int, j: int)
    requires
        0 <= i <= j <= s.len(),
    ensures
        octal_number(s.subrange(0, i)) <= octal_number(s.subrange(0, j)),
    decreases j - i,
{
    if i < j {
        lemma_octal_number_grows(s, i, j - 1);
        assert(s.subrange(0, j).drop_last() =~= s.subrange(0, j - 1));
    }
}

/// Reads `data[lo..hi]` as a base-8 size, zero when it is not one.
fn parse_octal(data: &[u8], lo: usize, hi: usize) -> (r: usize)
    requires
        lo <= hi <= data@.len(),
    ensures
        r == octal_size(data@.subrange(lo as int, hi as int)),
{
    let ghost text = data@.subrange(lo as int, hi as int);
    let mut i: usize = lo;
    if i < hi && data[i] == 0x2b {
        i = i + 1;
    }
    let first = i;
    let ghost digits = data@.subrange(first as int, hi as int);
    assert(digits =~= unsigned_digits(text));
    if first == hi {
        return 0;
    }
    let mut acc: u128 = 0;
    while i < hi
        invariant
            first <= i <= hi <= data@.len(),
            text == data@.subrange(lo as int, hi as int),
            digits == data@.subrange(first as int, hi as int),
            digits == unsigned_digits(text),
            forall|k: int| first <= k < i ==> is_octal_digit(#[trigger] data@[k]),
            acc == octal_number(data@.subrange(first as int, i as int)),
            acc <= usize::MAX,
        decreases hi - i,
    {
        let b = data[i];
        assert(digits[i - first] == b);
        if b < 0x30 || b > 0x37 {
            assert(!is_octal_digit(digits[i - first]));
            assert(!(forall|k: int| 0 <= k < digits.len() ==> is_octal_digit(#[trigger] digits[k])));
            return 0;
        }
        let ghost next = data@.subrange(first as int, i + 1);
        assert(next.drop_last() =~= data@.subrange(first as int, i as int));
        assert(next.last() == b);
        acc = acc * 8 + (b - 0x30) as u128;
        assert(acc == octal_number(next));
        i = i + 1;
        if acc > usize::MAX as u128 {
            proof {
                lemma_octal_number_grows(digits, i - first, digits.len() as int);
                assert(digits.subrange(0, i - first) =~= next);
                assert(digits.subrange(0, digits.len() as int) =~= digits);
                assert(octal_number(digits) > usize::MAX);
            }
            return 0;
        }
    }
    assert(data@.subrange(first as int, i as int) =~= digits);
    acc as usize
}

/// Compares `data[lo..hi]` with `name`, ignoring the case of ASCII letters.
fn names_match(data: &[u8], lo: usize, hi: usize, name: &[u8]) -> (r: bool)
    requires
        lo <= hi <= data@.len(),
    ensures
        r == eq_ignore_case(data@.subrange(lo as int, hi as int), name@),
{
    let ghost field = data@.subrange(lo as int, hi as int);
    if hi - lo != name.len() {
        return false;
    }
    let mut i: usize = 0;
    while i < name.len()
        invariant
            lo <= hi <= data@.len(),
            hi - lo == name@.len(),
            field == data@.subrange(lo as int, hi as int),
            i <= name@.len(),
            forall|k: int| 0 <= k < i ==> #[trigger] ascii_lower(field[k]) == ascii_lower(name@[k]),
        decreases name@.len() - i,
    {
        let a = data[lo + i];
        let b = name[i];
        let la: u8 = if 0x41 <= a && a <= 0x5a { a + 0x20 } else { a };
        let lb: u8 = if 0x41 <= b && b <= 0x5a { b + 0x20 } else { b };
        assert(field[i as int] == a);
        assert(la == ascii_lower(a) && lb == ascii_lower(b));
        if la != lb {
            return false;
        }
        i = i + 1;
    }
    true
}

/// Looks `filename` up in the archive `archive`: scans the 512-byte aligned
/// headers from the start and returns the payload of the first entry whose
/// name equals `filename` up to the case of ASCII letters.
/// Fails with `Corrupted` when a header declares a payload that runs past the
/// end of the archive, and with `NotFound` when the scan ends without a match.
pub fn bootfiles_read(archive: &[u8], filename: &str) -> (r: Result<Vec<u8>, BootError>)
    ensures
        bytes_result(r) == archive_lookup(archive@, filename.spec_bytes()),
{
    let name = filename.as_bytes();
    let n = archive.len();
    let mut pos: usize = 0;
    loop
        invariant
            pos <= n == archive@.len(),
            name@ == filename.spec_bytes(),
            archive_lookup(archive@, name@) == scan_from(archive@, name@, pos as int),
        decreases n - pos,
    {
        if n - pos < HEADER_LEN {
            return Err(BootError::NotFound);
        }
        if n - pos < BLOCK_SIZE {
            return Err(BootError::Corrupted);
        }
        let off = pos + BLOCK_SIZE;
        let (a, b) = trim_range(archive, pos + SIZE_OFFSET, pos + SIZE_OFFSET + SIZE_LEN, false);
        let (c, d) = trim_range(archive, a, b, true);
        assert(archive@.subrange(c as int, d as int) == trim(archive@.subrange(a as int, b as int), true));
        let size = parse_octal(archive, c, d);
        assert(size == header_size(archive@, pos as int));
        if size > n - off {
            return Err(BootError::Corrupted);
        }
        let (e, f) = trim_range(archive, pos, pos + NAME_LEN, false);
        if names_match(archive, e, f, name) {
            let payload = slice_to_vec(slice_subrange(archive, off, off + size));
            return Ok(payload);
        }
        let rem = size % BLOCK_SIZE;
        let pad = if rem == 0 { 0 } else { BLOCK_SIZE - rem };
        if pad > n - off - size {
            return Err(BootError::NotFound);
        }
        pos = off + size + pad;
    }
}

/// Whether the scan that starts at the header at `from` goes on to the
/// header at `q`, passing only headers whose payload lies within the archive.
pub open spec fn reaches(data: Seq<u8>, from: int, q: int) -> bool
    decreases data.len() - from,
{
    if q == from {
        true
    } else if from < 0 || from + 257 > data.len() {
        false
    } else {
        let off = from + 512;
        let size = header_size(data, from);
        if off + size > data.len() || off + padded(size) > data.len() {
            false
        } else {
            reaches(data, off + padded(size), q)
        }
    }
}

/// A header at `q` that is read and names `name`, up to case.
pub open spec fn names_entry(data: Seq<u8>, q: int, name: Seq<u8>) -> bool {
    0 <= q && q + 257 <= data.len() && eq_ignore_case(header_name(data, q), name)
}

/// A header at `q` that is read and whose declared payload runs past the end.
pub open spec fn overruns(data: Seq<u8>, q: int) -> bool {
    0 <= q && q + 257 <= data.len() && q + 512 + header_size(data, q) > data.len()
}

/// The payload that follows the header at `q`.
pub open spec fn payload_at(data: Seq<u8>, q: int) -> Seq<u8> {
    data.subrange(q + 512, q + 512 + header_size(data, q))
}

proof fn lemma_reaches_forward(data: Seq<u8>, from: int, q: int)
    requires
        reaches(data, from, q),
    ensures
        from <= q,
    decreases data.len() - from,
{
    if q != from {
        let off = from + 512;
        let size = header_size(data, from);
        lemma_reaches_forward(data, off + padded(size), q);
    }
}

/// Letter case of the requested name does not matter: names equal up to the
/// case of ASCII letters find the same entry, and fail in the same way.
pub proof fn lemma_lookup_ignores_case(data: Seq<u8>, a: Seq<u8>, b: Seq<u8>)
    requires
        eq_ignore_case(a, b),
    ensures
        archive_lookup(data, a) == archive_lookup(data, b),
{
    lemma_scan_ignores_case(data, a, b, 0);
}

proof fn lemma_scan_ignores_case(data: Seq<u8>, a: Seq<u8>, b: Seq<u8>, pos: int)
    requires
        eq_ignore_case(a, b),
    ensures
        scan_from(data, a, pos) == scan_from(data, b, pos),
    decreases data.len() - pos,
{
    if pos >= 0 && pos + 257 <= data.len() {
        let h = header_name(data, pos);
        assert(eq_ignore_case(h, a) == eq_ignore_case(h, b)) by {
            if eq_ignore_case(h, a) {
                assert forall|i: int| 0 <= i < h.len() implies #[trigger] ascii_lower(h[i]) == ascii_lower(b[i]) by {
                    assert(ascii_lower(h[i]) == ascii_lower(a[i]));
                    assert(ascii_lower(a[i]) == ascii_lower(b[i]));
                }
            }
            if eq_ignore_case(h, b) {
                assert forall|i: int| 0 <= i < h.len() implies #[trigger] ascii_lower(h[i]) == ascii_lower(a[i]) by {
                    assert(ascii_lower(h[i]) == ascii_lower(b[i]));
                    assert(ascii_lower(a[i]) == ascii_lower(b[i]));
                }
            }
        }
        let off = pos + 512;
        let size = header_size(data, pos);
        if off + size <= data.len() && off + padded(size) <= data.len() {
            lemma_scan_ignores_case(data, a, b, off + padded(size));
        }
    }
}

/// What a lookup returns is the extraction of the first entry of that name:
/// a success is the payload of a header, reached by the scan, that names
/// `name` (up to case), and no header the scan passes before it does.
/// `Corrupted` comes only from a reached header that overruns the archive,
/// and the only other error is `NotFound`.
pub proof fn lemma_lookup_is_first_entry(data: Seq<u8>, name: Seq<u8>)
    ensures
        archive_lookup(data, name) is Ok ==> exists|q: int|
            #[trigger] reaches(data, 0, q) && names_entry(data, q, name) && !overruns(data, q)
                && archive_lookup(data, name) == Ok::<Seq<u8>, BootError>(payload_at(data, q))
                && forall|p: int| #[trigger] reaches(data, 0, p) && p < q ==> !names_entry(data, p, name),
        archive_lookup(data, name) == Err::<Seq<u8>, BootError>(BootError::Corrupted) ==> exists|q: int|
            #[trigger] reaches(data, 0, q) && overruns(data, q),
        archive_lookup(data, name) is Err ==> archive_lookup(data, name) == Err::<Seq<u8>, BootError>(
            BootError::NotFound,
        ) || archive_lookup(data, name) == Err::<Seq<u8>, BootError>(BootError::Corrupted),
{
    lemma_scan_is_first_entry(data, name, 0);
}

/// A name that no header reached by the scan carries, in an archive where no
/// reached header overruns, is `NotFound`: never an empty success.
pub proof fn lemma_absent_name_not_found(data: Seq<u8>, name: Seq<u8>)
    requires
        forall|q: int| #[trigger] reaches(data, 0, q) ==> !names_entry(data, q, name) && !overruns(data, q),
    ensures
        archive_lookup(data, name) == Err::<Seq<u8>, BootError>(BootError::NotFound),
{
    lemma_scan_is_first_entry(data, name, 0);
}

proof fn lemma_scan_is_first_entry(data: Seq<u8>, name: Seq<u8>, pos: int)
    ensures
        scan_from(data, name, pos) is Ok ==> exists|q: int|
            #[trigger] reaches(data, pos, q) && names_entry(data, q, name) && !overruns(data, q)
                && scan_from(data, name, pos) == Ok::<Seq<u8>, BootError>(payload_at(data, q))
                && forall|p: int| #[trigger] reaches(data, pos, p) && p < q ==> !names_entry(data, p, name),
        scan_from(data, name, pos) == Err::<Seq<u8>, BootError>(BootError::Corrupted) ==> exists|q: int|
            #[trigger] reaches(data, pos, q) && overruns(data, q),
        scan_from(data, name, pos) is Err ==> scan_from(data, name, pos) == Err::<Seq<u8>, BootError>(
            BootError::NotFound,
        ) || scan_from(data, name, pos) == Err::<Seq<u8>, BootError>(BootError::Corrupted),
    decreases data.len() - pos,
{
    assert(reaches(data, pos, pos));
    if pos >= 0 && pos + 257 <= data.len() {
        let off = pos + 512;
        let size = header_size(data, pos);
        if off + size <= data.len() {
            if eq_ignore_case(header_name(data, pos), name) {
                assert forall|p: int| #[trigger] reaches(data, pos, p) && p < pos implies !names_entry(data, p, name) by {
                    lemma_reaches_forward(data, pos, p);
                }
            } else if off + padded(size) <= data.len() {
                let next = off + padded(size);
                lemma_scan_is_first_entry(data, name, next);
                assert forall|q: int| #[trigger] reaches(data, next, q) implies reaches(data, pos, q) by {
                    lemma_reaches_forward(data, next, q);
                }
                if scan_from(data, name, pos) is Ok {
                    let q = choose|q: int|
                        #[trigger] reaches(data, next, q) && names_entry(data, q, name) && !overruns(data, q)
                            && scan_from(data, name, next) == Ok::<Seq<u8>, BootError>(payload_at(data, q))
                            && forall|p: int| #[trigger] reaches(data, next, p) && p < q ==> !names_entry(data, p, name);
                    assert(reaches(data, pos, q));
                    assert forall|p: int| #[trigger] reaches(data, pos, p) && p < q implies !names_entry(data, p, name) by {
                        if p != pos {
                            assert(reaches(data, next, p));
                        }
                    }
                }
                if scan_from(data, name, pos) == Err::<Seq<u8>, BootError>(BootError::Corrupted) {
                    let q = choose|q: int| #[trigger] reaches(data, next, q) && overruns(data, q);
                    assert(reaches(data, pos, q));
                }
            }
        } else {
            assert(overruns(data, pos));
        }
    }
}

/// A header reached by the scan whose declared payload runs past the end of
/// the archive makes the lookup fail with `Corrupted`, also when the header
/// block itself ends the archive.
pub proof fn lemma_overrun_is_corrupted(data: Seq<u8>, name: Seq<u8>, pos: int)
    requires
        overruns(data, pos),
    ensures
        scan_from(data, name, pos) == Err::<Seq<u8>, BootError>(BootError::Corrupted),
{
}

} // verus!
