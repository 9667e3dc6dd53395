//! The line-oriented wire protocol an oracle speaks with its peer process.
//!
//! A session is a sequence of newline-terminated commands, each answered by
//! one framed response. A `checksum` command is answered by `OK <digest>`;
//! a `metadata` command by `OK START`, one line per file, and `END`; anything
//! else by an `ERR Invalid command` line echoing the offending text. An
//! entry line carries the size and modification time as decimal tokens and
//! then the path's bytes, closed by a NUL before the line's newline, so that
//! no byte of a path can be mistaken for a field or line boundary.

use vstd::prelude::*;

use crate::meta::{
    build_index, bucket_items, flatten_index, idx_matches_tree, idx_wf, index_lists,
    indexed_item, lemma_build_matches_tree, lemma_flatten_index, lemma_flatten_take_snoc,
    metadata_views, path_in_index, string_views, BucketV, Metadata, MetadataIndex, MetadataV,
};
use crate::digest::{digest_wf, is_lower_hex_byte, sha1_hex_of};
use crate::server::{check_wire_safe, path_wire_safe, Server};
use vstd::pervasive::unreached;
use vstd::slice::{slice_subrange, slice_to_vec};
use vstd::utf8::{decode_utf8, encode_utf8, valid_utf8};

verus! {

broadcast use vstd::utf8::encode_utf8_valid_utf8, vstd::utf8::encode_utf8_decode_utf8;

/// The bytes of the `OK START` header line.
pub open spec fn ok_start() -> Seq<u8> {
    seq![79u8, 75u8, 32u8, 83u8, 84u8, 65u8, 82u8, 84u8, 10u8]
}

/// The bytes of the `END` trailer line.
pub open spec fn end_line() -> Seq<u8> {
    seq![69u8, 78u8, 68u8, 10u8]
}

/// The bytes of the `OK ` answer prefix.
pub open spec fn ok_prefix() -> Seq<u8> {
    seq![79u8, 75u8, 32u8]
}

/// Relies on std's `String::from_utf8`: it succeeds exactly on valid UTF-8
/// and the string's characters decode those bytes.
#[verifier::external_body]
fn bytes_to_string(v: Vec<u8>) -> (r: Option<String>)
    ensures
        r matches Some(s) ==> s@ == decode_utf8(v@),
        r is Some <==> valid_utf8(v@),
{
    match String::from_utf8(v) {
        Ok(s) => Some(s),
        Err(_) => None,
    }
}

/// An ASCII decimal digit.
pub open spec fn is_digit(b: u8) -> bool {
    48 <= b <= 57
}

/// The decimal digits of `n`, most significant first.
pub open spec fn dec_digits(n: nat) -> Seq<u8>
    decreases n,
{
    if n < 10 {
        seq![(48 + n) as u8]
    } else {
        dec_digits(n / 10).push((48 + n % 10) as u8)
    }
}

/// The number a digit string denotes.
pub open spec fn dec_value(s: Seq<u8>) -> int
    decreases s.len(),
{
    if s.len() == 0 {
        0
    } else {
        dec_value(s.drop_last()) * 10 + (s.last() - 48)
    }
}

/// A digit string's value is never negative.
pub proof fn lemma_dec_value_nonneg(s: Seq<u8>)
    requires
        forall|i: int| 0 <= i < s.len() ==> is_digit(#[trigger] s[i]),
    ensures
        dec_value(s) >= 0,
    decreases s.len(),
{
    if s.len() > 0 {
        assert forall|i: int| 0 <= i < s.drop_last().len() implies is_digit(
            #[trigger] s.drop_last()[i],
        ) by {
            assert(s.drop_last()[i] == s[i]);
        }
        lemma_dec_value_nonneg(s.drop_last());
        assert(dec_value(s.drop_last()) * 10 >= 0) by (nonlinear_arith)
            requires
                dec_value(s.drop_last()) >= 0,
        ;
    }
}

/// Digit strings denote their number: reading back what was written yields
/// the number, and only digits are written.
pub proof fn lemma_dec_digits(n: nat)
    ensures
        dec_value(dec_digits(n)) == n,
        dec_digits(n).len() >= 1,
        forall|i: int| 0 <= i < dec_digits(n).len() ==> is_digit(#[trigger] dec_digits(n)[i]),
    decreases n,
{
    if n < 10 {
        let s = dec_digits(n);
        assert(s =~= seq![(48 + n) as u8]);
        assert(s.drop_last() =~= Seq::<u8>::empty());
        assert(s.last() == (48 + n) as u8);
        assert(dec_value(s) == dec_value(Seq::<u8>::empty()) * 10 + (s.last() - 48));
    } else {
        lemma_dec_digits(n / 10);
        let s = dec_digits(n / 10).push((48 + n % 10) as u8);
        assert(s.drop_last() =~= dec_digits(n / 10));
        assert(s.last() == (48 + n % 10) as u8);
        assert(dec_value(s) == (n / 10) * 10 + n % 10);
        assert((n / 10) * 10 + n % 10 == n) by (nonlinear_arith);
        assert forall|i: int| 0 <= i < s.len() implies is_digit(#[trigger] s[i]) by {
            if i < s.len() - 1 {
                assert(s[i] == dec_digits(n / 10)[i]);
            }
        }
    }
}

/// Append the decimal digits of `n`.
pub fn push_dec(n: u64, out: &mut Vec<u8>)
    ensures
        final(out)@ == old(out)@ + dec_digits(n as nat),
    decreases n,
{
    if n < 10 {
        out.push(48 + n as u8);
        proof {
            assert(out@ =~= old(out)@ + dec_digits(n as nat));
        }
    } else {
        push_dec(n / 10, out);
        let d = (n % 10) as u8;
        out.push(48 + d);
        proof {
            assert(out@ =~= old(out)@ + dec_digits(n as nat));
        }
    }
}

/// End of the digit run that starts at `from`.
pub open spec fn span_digits(b: Seq<u8>, from: int) -> int
    decreases b.len() - from,
{
    if from < 0 || from >= b.len() || !is_digit(b[from]) {
        from
    } else {
        span_digits(b, from + 1)
    }
}

/// The digit run ends at the first non-digit, never before `from`, never
/// past the end.
pub proof fn lemma_span_digits(b: Seq<u8>, from: int)
    requires
        0 <= from <= b.len(),
    ensures
        from <= span_digits(b, from) <= b.len(),
        forall|i: int| from <= i < span_digits(b, from) ==> is_digit(#[trigger] b[i]),
        span_digits(b, from) < b.len() ==> !is_digit(b[span_digits(b, from)]),
    decreases b.len() - from,
{
    if from < b.len() && is_digit(b[from]) {
        lemma_span_digits(b, from + 1);
    }
}

/// A run of digits followed by a non-digit spans exactly itself.
pub proof fn lemma_span_digits_of(b: Seq<u8>, from: int, run: Seq<u8>)
    requires
        0 <= from,
        from + run.len() <= b.len(),
        b.subrange(from, from + run.len()) == run,
        forall|i: int| 0 <= i < run.len() ==> is_digit(#[trigger] run[i]),
        from + run.len() < b.len() ==> !is_digit(b[from + run.len()]),
    ensures
        span_digits(b, from) == from + run.len(),
    decreases run.len(),
{
    if run.len() == 0 {
        if from < b.len() {
            assert(!is_digit(b[from]));
        }
    } else {
        assert(b[from] == run[0]);
        assert(is_digit(b[from]));
        let run2 = run.skip(1);
        assert(b.subrange(from + 1, from + 1 + run2.len()) =~= run2);
        lemma_span_digits_of(b, from + 1, run2);
    }
}

/// Longer digit prefixes denote at least as large a number.
pub proof fn lemma_dec_value_grows(s: Seq<u8>, i: int, j: int)
    requires
        0 <= i <= j <= s.len(),
        forall|k: int| 0 <= k < s.len() ==> is_digit(#[trigger] s[k]),
    ensures
        dec_value(s.subrange(0, i)) <= dec_value(s.subrange(0, j)),
    decreases j - i,
{
    if i < j {
        lemma_dec_value_grows(s, i + 1, j);
        let a = s.subrange(0, i);
        let b = s.subrange(0, i + 1);
        assert(b.drop_last() =~= a);
        assert(dec_value(b) == dec_value(a) * 10 + (b.last() - 48));
        assert(forall|k: int| 0 <= k < a.len() ==> is_digit(#[trigger] a[k]));
        lemma_dec_value_nonneg(a);
        assert(is_digit(b.last()));
        assert(dec_value(a) * 10 >= dec_value(a)) by (nonlinear_arith)
            requires
                dec_value(a) >= 0,
        ;
    }
}

/// Read the digit run starting at `from` as a number, if it fits a `u64`.
/// Returns the value and the position after the run.
pub fn parse_dec(b: &[u8], from: usize) -> (r: Option<(u64, usize)>)
    requires
        from <= b@.len(),
    ensures
        match r {
            Some((v, end)) => {
                &&& end as int == span_digits(b@, from as int)
                &&& from < end <= b@.len()
                &&& v as int == dec_value(b@.subrange(from as int, end as int))
            },
            None => span_digits(b@, from as int) == from as int || dec_value(
                b@.subrange(from as int, span_digits(b@, from as int)),
            ) > u64::MAX,
        },
{
    proof {
        lemma_span_digits(b@, from as int);
    }
    let ghost end = span_digits(b@, from as int);
    let n = b.len();
    if from >= n || b[from] < 48 || b[from] > 57 {
        proof {
            assert(end == from as int);
        }
        return None;
    }
    let mut i: usize = from;
    let mut acc: u64 = 0;
    while i < n && b[i] >= 48 && b[i] <= 57
        invariant
            n == b@.len(),
            from <= i <= n,
            end == span_digits(b@, from as int),
            from as int <= end <= n,
            i <= end,
            forall|j: int| from <= j < end ==> is_digit(#[trigger] b@[j]),
            end < n ==> !is_digit(b@[end]),
            acc as int == dec_value(b@.subrange(from as int, i as int)),
        decreases n - i,
    {
        proof {
            assert(is_digit(b@[i as int]));
            assert(i < end) by {
                if i as int == end {
                    assert(!is_digit(b@[end]));
                }
            }
        }
        let d = b[i] - 48;
        if acc > (u64::MAX - d as u64) / 10 {
            proof {
                let cur = b@.subrange(from as int, i as int);
                let nxt = b@.subrange(from as int, i as int + 1);
                assert(nxt.drop_last() =~= cur);
                assert(dec_value(nxt) == dec_value(cur) * 10 + d);
                assert(dec_value(nxt) > u64::MAX) by (nonlinear_arith)
                    requires
                        dec_value(nxt) == dec_value(cur) * 10 + d,
                        dec_value(cur) == acc as int,
                        acc > (u64::MAX - d as u64) / 10,
                        0 <= d < 10,
                        acc <= u64::MAX,
                ;
                let full = b@.subrange(from as int, end);
                assert(full.subrange(0, i + 1 - from as int) =~= nxt);
                assert(full.subrange(0, end - from as int) =~= full);
                assert(forall|k: int| 0 <= k < full.len() ==> is_digit(#[trigger] full[k]));
                lemma_dec_value_grows(full, i + 1 - from as int, end - from as int);
                assert(dec_value(full) > u64::MAX);
            }
            return None;
        }
        proof {
            let cur = b@.subrange(from as int, i as int);
            let nxt = b@.subrange(from as int, i as int + 1);
            assert(nxt.drop_last() =~= cur);
            assert(acc * 10 + d <= u64::MAX) by (nonlinear_arith)
                requires
                    acc <= (u64::MAX - d as u64) / 10,
                    0 <= d < 10,
            ;
        }
        acc = acc * 10 + d as u64;
        i = i + 1;
    }
    proof {
        assert(i as int == end) by {
            if (i as int) < end {
                assert(is_digit(b@[i as int]));
            }
        }
    }
    Some((acc, i))
}

/// End of the path field: the first NUL at or after `from`.
pub open spec fn span_to_nul(b: Seq<u8>, from: int) -> int
    decreases b.len() - from,
{
    if from < 0 || from >= b.len() || b[from] == 0 {
        from
    } else {
        span_to_nul(b, from + 1)
    }
}

/// The path field ends at the first NUL, never before `from`, never past the
/// end.
pub proof fn lemma_span_to_nul(b: Seq<u8>, from: int)
    requires
        0 <= from <= b.len(),
    ensures
        from <= span_to_nul(b, from) <= b.len(),
        forall|i: int| from <= i < span_to_nul(b, from) ==> #[trigger] b[i] != 0,
        span_to_nul(b, from) < b.len() ==> b[span_to_nul(b, from)] == 0,
    decreases b.len() - from,
{
    if from < b.len() && b[from] != 0 {
        lemma_span_to_nul(b, from + 1);
    }
}

/// A run of NUL-free bytes followed by a NUL spans exactly itself.
pub proof fn lemma_span_to_nul_of(b: Seq<u8>, from: int, run: Seq<u8>)
    requires
        0 <= from,
        from + run.len() < b.len(),
        b.subrange(from, from + run.len()) == run,
        forall|i: int| 0 <= i < run.len() ==> #[trigger] run[i] != 0,
        b[from + run.len()] == 0,
    ensures
        span_to_nul(b, from) == from + run.len(),
    decreases run.len(),
{
    if run.len() == 0 {
        assert(b[from] == 0);
    } else {
        assert(b[from] == run[0]);
        let run2 = run.skip(1);
        assert(b.subrange(from + 1, from + 1 + run2.len()) =~= run2);
        lemma_span_to_nul_of(b, from + 1, run2);
    }
}

/// One entry line: the two fingerprint numbers as decimal tokens, a space
/// after each, the path's bytes, a NUL, the line's newline.
pub open spec fn spec_format_entry(m: MetadataV) -> Seq<u8> {
    dec_digits(m.size as nat) + seq![32u8] + dec_digits(m.modified as nat) + seq![32u8]
        + encode_utf8(m.path) + seq![0u8, 10u8]
}

/// The entry lines of a sequence of files, in order.
pub open spec fn spec_entries_bytes(items: Seq<MetadataV>) -> Seq<u8>
    decreases items.len(),
{
    if items.len() == 0 {
        Seq::empty()
    } else {
        spec_format_entry(items[0]) + spec_entries_bytes(items.skip(1))
    }
}

/// The whole response to a `metadata` command.
pub open spec fn spec_format_metadata(items: Seq<MetadataV>) -> Seq<u8> {
    ok_start() + spec_entries_bytes(items) + end_line()
}

/// The response to a `checksum` command.
pub open spec fn spec_format_checksum(d: Seq<char>) -> Seq<u8> {
    ok_prefix() + encode_utf8(d) + seq![10u8]
}

/// Entry lines concatenate as the file sequences do.
pub proof fn lemma_entries_bytes_concat(a: Seq<MetadataV>, b: Seq<MetadataV>)
    ensures
        spec_entries_bytes(a + b) == spec_entries_bytes(a) + spec_entries_bytes(b),
    decreases a.len(),
{
    if a.len() == 0 {
        assert(a + b =~= b);
        assert(spec_entries_bytes(a) =~= Seq::<u8>::empty());
        assert(spec_entries_bytes(a) + spec_entries_bytes(b) =~= spec_entries_bytes(b));
    } else {
        assert((a + b)[0] == a[0]);
        assert((a + b).skip(1) =~= a.skip(1) + b);
        lemma_entries_bytes_concat(a.skip(1), b);
        assert(spec_entries_bytes(a + b) =~= spec_entries_bytes(a) + spec_entries_bytes(b));
    }
}

/// Position after one parsed entry line starting at `from`, with the file it
/// denotes; nothing when no well-formed entry line starts there.
pub open spec fn spec_parse_entry(b: Seq<u8>, from: int) -> Option<(MetadataV, int)> {
    let e1 = span_digits(b, from);
    let v1 = dec_value(b.subrange(from, e1));
    if e1 <= from || e1 >= b.len() || b[e1] != 32 || v1 > u64::MAX {
        None
    } else {
        let s2 = e1 + 1;
        let e2 = span_digits(b, s2);
        let v2 = dec_value(b.subrange(s2, e2));
        if e2 <= s2 || e2 >= b.len() || b[e2] != 32 || v2 > u64::MAX {
            None
        } else {
            let s3 = e2 + 1;
            let e3 = span_to_nul(b, s3);
            if e3 + 1 >= b.len() || b[e3 + 1] != 10 || !valid_utf8(b.subrange(s3, e3)) {
                None
            } else {
                Some(
                    (
                        MetadataV {
                            path: decode_utf8(b.subrange(s3, e3)),
                            size: v1 as u64,
                            modified: v2 as u64,
                        },
                        e3 + 2,
                    ),
                )
            }
        }
    }
}

/// The files whose entry lines fill `b` from `from` to the `END` trailer
/// closing the response; nothing when the bytes read otherwise.
pub open spec fn spec_parse_entries(b: Seq<u8>, from: int) -> Option<Seq<MetadataV>>
    decreases b.len() - from,
{
    if from < 0 || from > b.len() {
        None
    } else if b.len() - from >= 4 && b.subrange(from, from + 4) == end_line() {
        if from + 4 == b.len() {
            Some(Seq::empty())
        } else {
            None
        }
    } else {
        match spec_parse_entry(b, from) {
            Option::None => None,
            Option::Some((m, nxt)) => if nxt <= from || nxt > b.len() {
                None
            } else {
                match spec_parse_entries(b, nxt) {
                    Option::None => None,
                    Option::Some(rest) => Some(seq![m] + rest),
                }
            },
        }
    }
}

/// The files a complete `metadata` response carries; nothing when the bytes
/// are not exactly one well-formed response.
pub open spec fn spec_parse_metadata(b: Seq<u8>) -> Option<Seq<MetadataV>> {
    if b.len() >= 9 && b.subrange(0, 9) == ok_start() {
        spec_parse_entries(b, 9)
    } else {
        None
    }
}

/// The digest bytes a complete `checksum` response carries: one `OK ` line.
pub open spec fn spec_parse_checksum(b: Seq<u8>) -> Option<Seq<u8>> {
    if b.len() >= 4 && b.subrange(0, 3) == ok_prefix() && b.last() == 10 && (forall|i: int|
        3 <= i < b.len() - 1 ==> #[trigger] b[i] != 10) {
        Some(b.subrange(3, b.len() - 1))
    } else {
        None
    }
}

/// Parsing reads back exactly the entry lines that were written, for paths
/// whose bytes can travel the wire.
pub proof fn lemma_parse_entries_of(b: Seq<u8>, from: int, items: Seq<MetadataV>)
    requires
        0 <= from <= b.len(),
        b.subrange(from, b.len() as int) == spec_entries_bytes(items) + end_line(),
        forall|j: int| 0 <= j < items.len() ==> path_wire_safe((#[trigger] items[j]).path),
    ensures
        spec_parse_entries(b, from) == Some(items),
    decreases items.len(),
{
    let suffix = b.subrange(from, b.len() as int);
    assert forall|i: int| 0 <= i < suffix.len() implies b[from + i] == suffix[i] by {}
    if items.len() == 0 {
        assert(spec_entries_bytes(items) =~= Seq::<u8>::empty());
        assert(suffix =~= end_line());
        assert(b.len() - from == 4);
        assert(b.subrange(from, from + 4) =~= end_line());
        assert(spec_parse_entries(b, from) == Some(Seq::<MetadataV>::empty()));
        assert(Seq::<MetadataV>::empty() =~= items);
    } else {
        let m = items[0];
        let entry = spec_format_entry(m);
        let rest = spec_entries_bytes(items.skip(1)) + end_line();
        assert(spec_entries_bytes(items) == entry + spec_entries_bytes(items.skip(1)));
        assert(suffix =~= entry + rest);
        assert forall|i: int| 0 <= i < entry.len() implies b[from + i] == entry[i] by {
            assert(suffix[i] == entry[i]);
        }
        let d1 = dec_digits(m.size as nat);
        let d2 = dec_digits(m.modified as nat);
        let pb = encode_utf8(m.path);
        lemma_dec_digits(m.size as nat);
        lemma_dec_digits(m.modified as nat);
        assert(entry.len() == d1.len() + 1 + d2.len() + 1 + pb.len() + 2);
        assert(rest.len() >= 4);

        // first numeric token
        assert forall|i: int| 0 <= i < d1.len() implies entry[i] == d1[i] by {}
        assert(entry[d1.len() as int] == 32u8);
        assert(b.subrange(from, from + d1.len()) =~= d1);
        assert(!is_digit(b[from + d1.len()]));
        lemma_span_digits_of(b, from, d1);
        let e1 = from + d1.len();
        assert(span_digits(b, from) == e1);
        assert(dec_value(b.subrange(from, e1)) == m.size as nat);
        assert(b[e1] == 32);

        // second numeric token
        let s2 = e1 + 1;
        assert forall|i: int| 0 <= i < d2.len() implies entry[d1.len() + 1 + i] == d2[i] by {}
        assert(b.subrange(s2, s2 + d2.len()) =~= d2);
        assert(entry[d1.len() + 1 + d2.len() as int] == 32u8);
        assert(!is_digit(b[s2 + d2.len()]));
        lemma_span_digits_of(b, s2, d2);
        let e2 = s2 + d2.len();
        assert(b[e2] == 32);
        assert(dec_value(b.subrange(s2, e2)) == m.modified as nat);

        // the path, closed by NUL and newline
        let s3 = e2 + 1;
        assert forall|i: int| 0 <= i < pb.len() implies entry[d1.len() + 1 + d2.len() + 1 + i]
            == pb[i] by {}
        assert(b.subrange(s3, s3 + pb.len()) =~= pb);
        assert(entry[entry.len() - 2] == 0);
        assert(entry[entry.len() - 1] == 10);
        assert(b[s3 + pb.len()] == 0);
        assert(forall|i: int| 0 <= i < pb.len() ==> #[trigger] pb[i] != 0);
        lemma_span_to_nul_of(b, s3, pb);
        let e3 = s3 + pb.len();
        assert(b[e3 + 1] == 10);
        assert(e3 + 1 < b.len());
        assert(valid_utf8(pb));
        assert(decode_utf8(pb) == m.path);
        assert(b.subrange(s3, e3) =~= pb);

        // no END trailer here: the entry starts with a digit
        if b.len() - from >= 4 && b.subrange(from, from + 4) == end_line() {
            assert(b[from] == 69);
            assert(is_digit(d1[0]) && b[from] == d1[0]);
            assert(false);
        }

        let nxt = e3 + 2;
        assert(spec_parse_entry(b, from) == Some(
            (MetadataV { path: m.path, size: m.size, modified: m.modified }, nxt),
        ));
        assert((MetadataV { path: m.path, size: m.size, modified: m.modified }) =~= m);
        assert(nxt == from + entry.len());
        assert forall|i: int| 0 <= i < rest.len() implies b.subrange(nxt, b.len() as int)[i]
            == rest[i] by {
            assert(suffix[entry.len() + i] == rest[i]);
            assert(b[from + (entry.len() + i)] == suffix[entry.len() + i]);
        }
        assert(b.subrange(nxt, b.len() as int) =~= rest);
        assert forall|j: int| 0 <= j < items.skip(1).len() implies path_wire_safe(
            (#[trigger] items.skip(1)[j]).path,
        ) by {
            assert(items.skip(1)[j] == items[j + 1]);
        }
        lemma_parse_entries_of(b, nxt, items.skip(1));
        assert(seq![m] + items.skip(1) =~= items);
    }
}

/// A written `metadata` response parses back to exactly the files written.
pub proof fn lemma_parse_metadata_of(items: Seq<MetadataV>)
    requires
        forall|j: int| 0 <= j < items.len() ==> path_wire_safe((#[trigger] items[j]).path),
    ensures
        spec_parse_metadata(spec_format_metadata(items)) == Some(items),
{
    let b = spec_format_metadata(items);
    assert(b.subrange(0, 9) =~= ok_start());
    assert(b.len() >= 9);
    assert(b.subrange(9, b.len() as int) =~= spec_entries_bytes(items) + end_line());
    lemma_parse_entries_of(b, 9, items);
}

/// A written `checksum` response parses back to exactly the digest written,
/// for digests whose bytes hold no newline.
pub proof fn lemma_parse_checksum_of(d: Seq<char>)
    requires
        forall|i: int| 0 <= i < encode_utf8(d).len() ==> #[trigger] encode_utf8(d)[i] != 10u8,
    ensures
        spec_parse_checksum(spec_format_checksum(d)) == Some(encode_utf8(d)),
{
    let b = spec_format_checksum(d);
    let eb = encode_utf8(d);
    assert(b.subrange(0, 3) =~= ok_prefix());
    assert(b.last() == 10);
    assert forall|i: int| 3 <= i < b.len() - 1 implies #[trigger] b[i] != 10 by {
        assert(b[i] == eb[i - 3]);
    }
    assert(b.subrange(3, b.len() - 1) =~= eb);
}

/// Write the `OK START` header line.
fn push_ok_start(out: &mut Vec<u8>)
    ensures
        final(out)@ == old(out)@ + ok_start(),
{
    out.push(79);
    out.push(75);
    out.push(32);
    out.push(83);
    out.push(84);
    out.push(65);
    out.push(82);
    out.push(84);
    out.push(10);
    proof {
        assert(out@ =~= old(out)@ + ok_start());
    }
}

/// The whole response to a `metadata` command, for the given index: header,
/// one entry line per file in bucket order, trailer.
pub fn format_metadata_response(idx: &MetadataIndex) -> (r: Vec<u8>)
    ensures
        r@ == spec_format_metadata(flatten_index(idx@)),
{
    let mut out: Vec<u8> = Vec::new();
    push_ok_start(&mut out);
    let ghost di = idx@;
    let nb = idx.buckets.len();
    let mut i: usize = 0;
    proof {
        assert(out@ =~= ok_start());
        assert(flatten_index(di.take(0)) =~= Seq::<MetadataV>::empty());
        assert(spec_entries_bytes(flatten_index(di.take(0))) =~= Seq::<u8>::empty());
        assert(out@ =~= ok_start() + spec_entries_bytes(flatten_index(di.take(0))));
    }
    while i < nb
        invariant
            di == idx@,
            nb == idx.buckets.len(),
            0 <= i <= nb,
            out@ == ok_start() + spec_entries_bytes(flatten_index(di.take(i as int))),
        decreases nb - i,
    {
        let bucket = &idx.buckets[i];
        let ghost bv = di[i as int];
        let np = bucket.paths.len();
        let mut k: usize = 0;
        proof {
            assert(bucket_items(bv).take(0) =~= Seq::<MetadataV>::empty());
            lemma_entries_bytes_concat(flatten_index(di.take(i as int)), bucket_items(bv).take(0));
            assert(flatten_index(di.take(i as int)) + bucket_items(bv).take(0) =~= flatten_index(
                di.take(i as int),
            ));
        }
        while k < np
            invariant
                di == idx@,
                0 <= i < di.len(),
                i < idx.buckets.len(),
                bucket == &idx.buckets[i as int],
                bv == di[i as int],
                np == bucket.paths.len(),
                np == bv.paths.len(),
                0 <= k <= np,
                out@ == ok_start() + spec_entries_bytes(
                    flatten_index(di.take(i as int)) + bucket_items(bv).take(k as int),
                ),
            decreases np - k,
        {
            let ghost pre = out@;
            push_dec(bucket.size, &mut out);
            out.push(32);
            push_dec(bucket.modified, &mut out);
            out.push(32);
            let pb = bucket.paths[k].as_str().as_bytes();
            out.extend_from_slice(pb);
            out.push(0);
            out.push(10);
            proof {
                let item = bucket_items(bv)[k as int];
                assert(item.path == bv.paths[k as int]);
                assert(bv.paths[k as int] == string_views(bucket.paths@)[k as int]);
                assert(pb@ == encode_utf8(item.path));
                assert(out@ =~= pre + spec_format_entry(item));
                let before = flatten_index(di.take(i as int)) + bucket_items(bv).take(k as int);
                let after = flatten_index(di.take(i as int)) + bucket_items(bv).take(k as int + 1);
                assert(after =~= before + seq![item]);
                lemma_entries_bytes_concat(before, seq![item]);
                assert(seq![item].skip(1) =~= Seq::<MetadataV>::empty());
                assert(spec_entries_bytes(seq![item].skip(1)) =~= Seq::<u8>::empty());
                assert(spec_entries_bytes(seq![item]) =~= spec_format_entry(item));
                assert(out@ =~= ok_start() + spec_entries_bytes(after));
            }
            k = k + 1;
        }
        proof {
            lemma_flatten_take_snoc(di, i as int);
            assert(bucket_items(bv).take(np as int) =~= bucket_items(bv));
            assert(flatten_index(di.take(i as int + 1)) =~= flatten_index(di.take(i as int))
                + bucket_items(bv));
        }
        i = i + 1;
    }
    out.push(69);
    out.push(78);
    out.push(68);
    out.push(10);
    proof {
        assert(di.take(nb as int) =~= di);
        assert(out@ =~= spec_format_metadata(flatten_index(di)));
    }
    out
}

/// The response to a `checksum` command, for the given digest.
pub fn format_checksum_response(digest: &String) -> (r: Vec<u8>)
    ensures
        r@ == spec_format_checksum(digest@),
{
    let mut out: Vec<u8> = Vec::new();
    out.push(79);
    out.push(75);
    out.push(32);
    let db = digest.as_str().as_bytes();
    out.extend_from_slice(db);
    out.push(10);
    proof {
        assert(out@ =~= spec_format_checksum(digest@));
    }
    out
}

/// Position of the first NUL at or after `from`.
fn find_nul(b: &Vec<u8>, from: usize) -> (r: usize)
    requires
        from <= b@.len(),
    ensures
        r as int == span_to_nul(b@, from as int),
        from <= r <= b@.len(),
{
    proof {
        lemma_span_to_nul(b@, from as int);
    }
    let ghost e = span_to_nul(b@, from as int);
    let n = b.len();
    let mut i: usize = from;
    while i < n && b[i] != 0
        invariant
            n == b@.len(),
            from <= i <= n,
            e == span_to_nul(b@, from as int),
            from as int <= e <= n,
            i <= e,
            forall|j: int| from <= j < e ==> #[trigger] b@[j] != 0,
            e < n ==> b@[e] == 0,
        decreases n - i,
    {
        proof {
            if i as int == e {
                assert(b@[e] == 0);
            }
        }
        i = i + 1;
    }
    proof {
        if (i as int) < e {
            assert(b@[i as int] != 0);
        }
    }
    i
}

/// One parsed entry line starting at `from`: the file it denotes and the
/// position after the line.
fn parse_entry(b: &Vec<u8>, from: usize) -> (r: Option<(Metadata, usize)>)
    requires
        from <= b@.len(),
    ensures
        match r {
            Some((m, nxt)) => spec_parse_entry(b@, from as int) == Some((m@, nxt as int)) && from
                < nxt <= b@.len(),
            None => spec_parse_entry(b@, from as int) is None,
        },
{
    let n = b.len();
    let (size, e1) = match parse_dec(b.as_slice(), from) {
        Option::Some(x) => x,
        Option::None => {
            return None;
        },
    };
    if e1 >= n || b[e1] != 32 {
        return None;
    }
    let (modified, e2) = match parse_dec(b.as_slice(), e1 + 1) {
        Option::Some(x) => x,
        Option::None => {
            return None;
        },
    };
    if e2 >= n || b[e2] != 32 {
        return None;
    }
    let s3 = e2 + 1;
    let e3 = find_nul(b, s3);
    if e3 >= n || e3 + 1 >= n || b[e3 + 1] != 10 {
        return None;
    }
    let pb = slice_to_vec(slice_subrange(b.as_slice(), s3, e3));
    let path = match bytes_to_string(pb) {
        Option::Some(s) => s,
        Option::None => {
            return None;
        },
    };
    Some((Metadata { path, size, modified }, e3 + 2))
}

/// The files of a complete `metadata` response, or nothing when the bytes
/// are not exactly one well-formed response.
pub fn parse_metadata_response(b: &Vec<u8>) -> (r: Option<Vec<Metadata>>)
    ensures
        match r {
            Some(items) => spec_parse_metadata(b@) == Some(crate::meta::metadata_views(items@)),
            None => spec_parse_metadata(b@) is None,
        },
{
    let n = b.len();
    if n < 9 || b[0] != 79 || b[1] != 75 || b[2] != 32 || b[3] != 83 || b[4] != 84 || b[5] != 65
        || b[6] != 82 || b[7] != 84 || b[8] != 10 {
        proof {
            if b@.len() >= 9 && b@.subrange(0, 9) == ok_start() {
                assert(b@[0] == 79 && b@[1] == 75 && b@[2] == 32 && b@[3] == 83 && b@[4] == 84
                    && b@[5] == 65 && b@[6] == 82 && b@[7] == 84 && b@[8] == 10);
            }
        }
        return None;
    }
    proof {
        assert(b@.subrange(0, 9) =~= ok_start());
    }
    let mut items: Vec<Metadata> = Vec::new();
    let mut pos: usize = 9;
    proof {
        assert(crate::meta::metadata_views(items@) =~= Seq::<MetadataV>::empty());
    }
    while pos < n
        invariant
            n == b@.len(),
            9 <= pos <= n,
            b@.subrange(0, 9) == ok_start(),
            (match spec_parse_entries(b@, pos as int) {
                Option::Some(rest) => spec_parse_entries(b@, 9) == Some(
                    crate::meta::metadata_views(items@) + rest,
                ),
                Option::None => spec_parse_entries(b@, 9) is None,
            }),
        decreases n - pos,
    {
        if n - pos >= 4 && b[pos] == 69 && b[pos + 1] == 78 && b[pos + 2] == 68 && b[pos + 3]
            == 10 {
            proof {
                assert(b@.subrange(pos as int, pos as int + 4) =~= end_line());
            }
            if pos + 4 == n {
                proof {
                    assert(spec_parse_entries(b@, pos as int) == Some(Seq::<MetadataV>::empty()));
                    assert(crate::meta::metadata_views(items@) + Seq::<MetadataV>::empty()
                        =~= crate::meta::metadata_views(items@));
                }
                return Some(items);
            }
            return None;
        }
        proof {
            if b@.len() - pos >= 4 && b@.subrange(pos as int, pos as int + 4) == end_line() {
                assert(b@[pos as int] == 69 && b@[pos as int + 1] == 78 && b@[pos as int + 2] == 68
                    && b@[pos as int + 3] == 10);
            }
        }
        let (m, nxt) = match parse_entry(b, pos) {
            Option::Some(x) => x,
            Option::None => {
                return None;
            },
        };
        let ghost pre = crate::meta::metadata_views(items@);
        let ghost mv = m@;
        items.push(m);
        proof {
            assert(crate::meta::metadata_views(items@) =~= pre + seq![mv]);
            assert(spec_parse_entries(b@, pos as int) matches Option::Some(rest) ==> rest
                == seq![mv] + spec_parse_entries(b@, nxt as int).unwrap());
            assert((pre + seq![mv]) + spec_parse_entries(b@, nxt as int).unwrap() =~= pre + (
            seq![mv] + spec_parse_entries(b@, nxt as int).unwrap()));
        }
        pos = nxt;
    }
    // ran out of bytes without a trailer
    proof {
        assert(spec_parse_entries(b@, pos as int) is None);
    }
    None
}

/// The digest bytes of a complete `checksum` response, or nothing when the
/// bytes are not exactly one `OK` line.
pub fn parse_checksum_response(b: &Vec<u8>) -> (r: Option<Vec<u8>>)
    ensures
        match r {
            Some(d) => spec_parse_checksum(b@) == Some(d@),
            None => spec_parse_checksum(b@) is None,
        },
{
    let n = b.len();
    if n < 4 || b[0] != 79 || b[1] != 75 || b[2] != 32 || b[n - 1] != 10 {
        proof {
            if b@.len() >= 4 && b@.subrange(0, 3) == ok_prefix() {
                assert(b@[0] == 79 && b@[1] == 75 && b@[2] == 32);
            }
        }
        return None;
    }
    proof {
        assert(b@.subrange(0, 3) =~= ok_prefix());
    }
    let mut i: usize = 3;
    while i < n - 1
        invariant
            n == b@.len(),
            4 <= n,
            3 <= i <= n - 1,
            forall|j: int| 3 <= j < i ==> #[trigger] b@[j] != 10,
        decreases n - i,
    {
        if b[i] == 10 {
            return None;
        }
        i = i + 1;
    }
    let d = slice_to_vec(slice_subrange(b.as_slice(), 3, n - 1));
    proof {
        assert(d@ =~= b@.subrange(3, b@.len() - 1));
    }
    Some(d)
}

/// The bytes of the `checksum ` command prefix.
pub open spec fn checksum_prefix() -> Seq<u8> {
    seq![99u8, 104u8, 101u8, 99u8, 107u8, 115u8, 117u8, 109u8, 32u8]
}

/// The bytes of the `metadata ` command prefix.
pub open spec fn metadata_prefix() -> Seq<u8> {
    seq![109u8, 101u8, 116u8, 97u8, 100u8, 97u8, 116u8, 97u8, 32u8]
}

/// The bytes of the `exit` command word.
pub open spec fn exit_word() -> Seq<u8> {
    seq![101u8, 120u8, 105u8, 116u8]
}

/// The bytes of the `ERR Invalid command ` answer prefix.
pub open spec fn err_prefix() -> Seq<u8> {
    seq![
        69u8, 82u8, 82u8, 32u8, 73u8, 110u8, 118u8, 97u8, 108u8, 105u8, 100u8, 32u8, 99u8, 111u8,
        109u8, 109u8, 97u8, 110u8, 100u8, 32u8,
    ]
}

/// A command line, its one trailing newline taken off.
pub open spec fn spec_strip_nl(line: Seq<u8>) -> Seq<u8> {
    if line.len() > 0 && line.last() == 10 {
        line.drop_last()
    } else {
        line
    }
}

/// One command of a session.
pub enum Command {
    Checksum(String),
    Metadata(String),
    Exit,
    Invalid,
}

/// Mathematical image of `Command`.
pub ghost enum CommandV {
    Checksum(Seq<char>),
    Metadata(Seq<char>),
    Exit,
    Invalid,
}

impl View for Command {
    type V = CommandV;

    open spec fn view(&self) -> CommandV {
        match self {
            Command::Checksum(p) => CommandV::Checksum(p@),
            Command::Metadata(p) => CommandV::Metadata(p@),
            Command::Exit => CommandV::Exit,
            Command::Invalid => CommandV::Invalid,
        }
    }
}

/// The command a line carries: `exit`, `checksum <path>`, `metadata <path>`,
/// or nothing recognizable.
pub open spec fn spec_command_of(line: Seq<u8>) -> CommandV {
    let l = spec_strip_nl(line);
    if l == exit_word() {
        CommandV::Exit
    } else if l.len() >= 9 && l.subrange(0, 9) == checksum_prefix() && valid_utf8(
        l.skip(9),
    ) {
        CommandV::Checksum(decode_utf8(l.skip(9)))
    } else if l.len() >= 9 && l.subrange(0, 9) == metadata_prefix() && valid_utf8(
        l.skip(9),
    ) {
        CommandV::Metadata(decode_utf8(l.skip(9)))
    } else {
        CommandV::Invalid
    }
}

/// Read the command a line carries.
pub fn parse_command(line: &Vec<u8>) -> (c: Command)
    ensures
        c@ == spec_command_of(line@),
{
    let n = line.len();
    let end: usize = if n > 0 && line[n - 1] == 10 {
        n - 1
    } else {
        n
    };
    proof {
        assert(line@.subrange(0, end as int) =~= spec_strip_nl(line@));
    }
    if end == 4 && line[0] == 101 && line[1] == 120 && line[2] == 105 && line[3] == 116 {
        proof {
            assert(spec_strip_nl(line@) =~= exit_word());
        }
        return Command::Exit;
    }
    proof {
        if spec_strip_nl(line@) == exit_word() {
            let l = spec_strip_nl(line@);
            assert(l[0] == 101 && l[1] == 120 && l[2] == 105 && l[3] == 116 && l.len() == 4);
            assert(line@[0] == l[0] && line@[1] == l[1] && line@[2] == l[2] && line@[3] == l[3]);
        }
    }
    if end >= 9 && line[0] == 99 && line[1] == 104 && line[2] == 101 && line[3] == 99 && line[4]
        == 107 && line[5] == 115 && line[6] == 117 && line[7] == 109 && line[8] == 32 {
        proof {
            assert(spec_strip_nl(line@).subrange(0, 9) =~= checksum_prefix());
        }
        let pb = slice_to_vec(slice_subrange(line.as_slice(), 9, end));
        proof {
            assert(pb@ =~= spec_strip_nl(line@).skip(9));
        }
        match bytes_to_string(pb) {
            Option::Some(p) => {
                return Command::Checksum(p);
            },
            Option::None => {
                return Command::Invalid;
            },
        }
    }
    if end >= 9 && line[0] == 109 && line[1] == 101 && line[2] == 116 && line[3] == 97 && line[4]
        == 100 && line[5] == 97 && line[6] == 116 && line[7] == 97 && line[8] == 32 {
        proof {
            assert(spec_strip_nl(line@).subrange(0, 9) =~= metadata_prefix());
        }
        let pb = slice_to_vec(slice_subrange(line.as_slice(), 9, end));
        proof {
            assert(pb@ =~= spec_strip_nl(line@).skip(9));
        }
        match bytes_to_string(pb) {
            Option::Some(p) => {
                return Command::Metadata(p);
            },
            Option::None => {
                return Command::Invalid;
            },
        }
    }
    proof {
        let l = spec_strip_nl(line@);
        if l.len() >= 9 && l.subrange(0, 9) == checksum_prefix() {
            assert(line@[0] == l[0] && line@[1] == l[1] && line@[2] == l[2] && line@[3] == l[3]
                && line@[4] == l[4] && line@[5] == l[5] && line@[6] == l[6] && line@[7] == l[7]
                && line@[8] == l[8]);
        }
        if l.len() >= 9 && l.subrange(0, 9) == metadata_prefix() {
            assert(line@[0] == l[0] && line@[1] == l[1] && line@[2] == l[2] && line@[3] == l[3]
                && line@[4] == l[4] && line@[5] == l[5] && line@[6] == l[6] && line@[7] == l[7]
                && line@[8] == l[8]);
        }
    }
    Command::Invalid
}

/// The `checksum` command line for a path.
pub fn format_checksum_command(path: &String) -> (r: Vec<u8>)
    ensures
        r@ == checksum_prefix() + encode_utf8(path@) + seq![10u8],
{
    let mut out: Vec<u8> = Vec::new();
    out.push(99);
    out.push(104);
    out.push(101);
    out.push(99);
    out.push(107);
    out.push(115);
    out.push(117);
    out.push(109);
    out.push(32);
    out.extend_from_slice(path.as_str().as_bytes());
    out.push(10);
    proof {
        assert(out@ =~= checksum_prefix() + encode_utf8(path@) + seq![10u8]);
    }
    out
}

/// The `metadata` command line for a root path.
pub fn format_metadata_command(path: &String) -> (r: Vec<u8>)
    ensures
        r@ == metadata_prefix() + encode_utf8(path@) + seq![10u8],
{
    let mut out: Vec<u8> = Vec::new();
    out.push(109);
    out.push(101);
    out.push(116);
    out.push(97);
    out.push(100);
    out.push(97);
    out.push(116);
    out.push(97);
    out.push(32);
    out.extend_from_slice(path.as_str().as_bytes());
    out.push(10);
    proof {
        assert(out@ =~= metadata_prefix() + encode_utf8(path@) + seq![10u8]);
    }
    out
}

/// The `exit` command line.
pub fn format_exit_command() -> (r: Vec<u8>)
    ensures
        r@ == exit_word() + seq![10u8],
{
    let mut out: Vec<u8> = Vec::new();
    out.push(101);
    out.push(120);
    out.push(105);
    out.push(116);
    out.push(10);
    proof {
        assert(out@ =~= exit_word() + seq![10u8]);
    }
    out
}

/// A formatted `checksum` command parses back to that command, for a path
/// whose bytes hold no newline.
pub proof fn lemma_parse_checksum_command(path: Seq<char>)
    ensures
        spec_command_of(checksum_prefix() + encode_utf8(path) + seq![10u8])
            == CommandV::Checksum(path),
{
    let line = checksum_prefix() + encode_utf8(path) + seq![10u8];
    let l = spec_strip_nl(line);
    assert(line.last() == 10);
    assert(l =~= checksum_prefix() + encode_utf8(path));
    assert(l.len() >= 9);
    assert(l != exit_word());
    assert(l.subrange(0, 9) =~= checksum_prefix());
    assert(l.skip(9) =~= encode_utf8(path));
}

/// A formatted `metadata` command parses back to that command.
pub proof fn lemma_parse_metadata_command(path: Seq<char>)
    ensures
        spec_command_of(metadata_prefix() + encode_utf8(path) + seq![10u8])
            == CommandV::Metadata(path),
{
    let line = metadata_prefix() + encode_utf8(path) + seq![10u8];
    let l = spec_strip_nl(line);
    assert(line.last() == 10);
    assert(l =~= metadata_prefix() + encode_utf8(path));
    assert(l.len() >= 9);
    assert(l != exit_word());
    assert(l.subrange(0, 9) =~= metadata_prefix());
    if l.subrange(0, 9) == checksum_prefix() {
        assert(l[0] == 109 && l[0] == 99);
    }
    assert(l.skip(9) =~= encode_utf8(path));
}

/// A formatted `exit` command parses back to the exit command.
pub proof fn lemma_parse_exit_command()
    ensures
        spec_command_of(exit_word() + seq![10u8]) == CommandV::Exit,
{
    let line = exit_word() + seq![10u8];
    assert(line.last() == 10);
    assert(spec_strip_nl(line) =~= exit_word());
}

/// The `ERR Invalid command` line echoing an offending command line.
pub open spec fn spec_format_err(l: Seq<u8>) -> Seq<u8> {
    err_prefix() + l + seq![10u8]
}

/// Write the `ERR Invalid command` line for the offending command line.
fn format_err_response(line: &Vec<u8>) -> (r: Vec<u8>)
    ensures
        r@ == spec_format_err(spec_strip_nl(line@)),
{
    let mut out: Vec<u8> = Vec::new();
    out.push(69);
    out.push(82);
    out.push(82);
    out.push(32);
    out.push(73);
    out.push(110);
    out.push(118);
    out.push(97);
    out.push(108);
    out.push(105);
    out.push(100);
    out.push(32);
    out.push(99);
    out.push(111);
    out.push(109);
    out.push(109);
    out.push(97);
    out.push(110);
    out.push(100);
    out.push(32);
    let n = line.len();
    let end: usize = if n > 0 && line[n - 1] == 10 {
        n - 1
    } else {
        n
    };
    out.extend_from_slice(slice_subrange(line.as_slice(), 0, end));
    out.push(10);
    proof {
        assert(line@.subrange(0, end as int) =~= spec_strip_nl(line@));
        assert(out@ =~= spec_format_err(spec_strip_nl(line@)));
    }
    out
}

/// An `ERR` line is neither a `checksum` nor a `metadata` answer.
pub proof fn lemma_err_parses_to_nothing(l: Seq<u8>)
    ensures
        spec_parse_checksum(spec_format_err(l)) is None,
        spec_parse_metadata(spec_format_err(l)) is None,
{
    let b = spec_format_err(l);
    assert(b[0] == 69);
    if b.len() >= 4 && b.subrange(0, 3) == ok_prefix() {
        assert(b[0] == 79);
    }
    if b.len() >= 9 && b.subrange(0, 9) == ok_start() {
        assert(b[0] == 79);
    }
}

/// Serve one command line against an oracle, as the peer's session loop
/// does: the framed response, and whether the session ends here. A
/// `metadata` command is answered for the oracle's own tree, whatever root
/// the command names: the peer serves exactly one tree. A `checksum`
/// command naming a path the tree does not hold is answered as invalid,
/// which the asking side treats as fatal for that file.
pub fn manage_client<S: Server>(server: &mut S, line: &Vec<u8>) -> (r: (Vec<u8>, bool))
    requires
        old(server).wf(),
    ensures
        final(server).wf(),
        final(server).tree() == old(server).tree(),
        r.1 == (spec_command_of(line@) is Exit),
        match spec_command_of(line@) {
            CommandV::Checksum(p) => {
                &&& old(server).tree().contains_key(p) ==> ({
                    let d = sha1_hex_of(old(server).tree()[p].content);
                    &&& r.0@ == spec_format_checksum(d)
                    &&& digest_wf(d)
                })
                &&& !old(server).tree().contains_key(p) ==> (spec_parse_checksum(r.0@) is None)
            },
            CommandV::Metadata(_) => exists|idx: Seq<BucketV>|
                #![trigger spec_format_metadata(flatten_index(idx))]
                idx_wf(idx) && idx_matches_tree(idx, old(server).tree()) && r.0@
                    == spec_format_metadata(flatten_index(idx)),
            CommandV::Exit => r.0@.len() == 0,
            CommandV::Invalid => spec_parse_checksum(r.0@) is None && spec_parse_metadata(
                r.0@,
            ) is None,
        },
{
    let cmd = parse_command(line);
    match cmd {
        Command::Checksum(p) => {
            match server.get_checksum(&p) {
                Option::Some(d) => {
                    let resp = format_checksum_response(&d);
                    (resp, false)
                },
                Option::None => {
                    let resp = format_err_response(line);
                    proof {
                        lemma_err_parses_to_nothing(spec_strip_nl(line@));
                    }
                    (resp, false)
                },
            }
        },
        Command::Metadata(_root) => {
            let idx = server.get_metadata();
            let resp = format_metadata_response(&idx);
            (resp, false)
        },
        Command::Exit => {
            (Vec::new(), true)
        },
        Command::Invalid => {
            let resp = format_err_response(line);
            proof {
                lemma_err_parses_to_nothing(spec_strip_nl(line@));
            }
            (resp, false)
        },
    }
}

/// An oracle reached over the wire protocol: every call becomes one command
/// line to a peer serving the tree, and the framed answer is parsed back.
/// The peer here is any oracle of its own; a run's peer process runs the
/// same session loop around one.
pub struct WireOracle<S: Server> {
    pub inner: S,
    pub root: String,
}

impl<S: Server> Server for WireOracle<S> {
    open spec fn tree(&self) -> crate::meta::TreeView {
        self.inner.tree()
    }

    open spec fn wf(&self) -> bool {
        &&& self.inner.wf()
        &&& forall|p: Seq<char>| #[trigger]
            self.inner.tree().contains_key(p) ==> path_wire_safe(p)
    }

    fn get_metadata(&mut self) -> (idx: MetadataIndex) {
        let ghost tree = self.inner.tree();
        let cmd = format_metadata_command(&self.root);
        proof {
            lemma_parse_metadata_command(self.root@);
        }
        let (resp, _quit) = manage_client(&mut self.inner, &cmd);
        let ghost src_idx = choose|si: Seq<BucketV>|
            #![trigger spec_format_metadata(flatten_index(si))]
            idx_wf(si) && idx_matches_tree(si, tree) && resp@ == spec_format_metadata(
                flatten_index(si),
            );
        let ghost flat = flatten_index(src_idx);
        proof {
            lemma_flatten_index(src_idx);
            assert forall|j: int| 0 <= j < flat.len() implies path_wire_safe(
                (#[trigger] flat[j]).path,
            ) by {
                assert(index_lists(src_idx, flat[j]));
                let (bi, bk): (int, int) = choose|bi: int, bk: int|
                    0 <= bi < src_idx.len() && 0 <= bk < src_idx[bi].paths.len()
                        && #[trigger] indexed_item(src_idx, bi, bk) == flat[j];
                assert(tree.contains_key(src_idx[bi].paths[bk]));
            }
            lemma_parse_metadata_of(flat);
        }
        let items = match parse_metadata_response(&resp) {
            Option::Some(items) => items,
            Option::None => {
                proof {
                    assert(false);
                }
                unreached()
            },
        };
        proof {
            assert(metadata_views(items@) == flat);
            assert forall|j: int|
                0 <= j < flat.len() implies tree.contains_key((#[trigger] flat[j]).path)
                && tree[flat[j].path].size == flat[j].size && tree[flat[j].path].modified
                == flat[j].modified by {
                assert(index_lists(src_idx, flat[j]));
                let (bi, bk): (int, int) = choose|bi: int, bk: int|
                    0 <= bi < src_idx.len() && 0 <= bk < src_idx[bi].paths.len()
                        && #[trigger] indexed_item(src_idx, bi, bk) == flat[j];
                assert(tree.contains_key(src_idx[bi].paths[bk]));
            }
            assert forall|p: Seq<char>| #[trigger] tree.contains_key(p) implies (exists|j: int|
                0 <= j < flat.len() && (#[trigger] flat[j]).path == p) by {
                assert(path_in_index(src_idx, p));
                let (bi, bk): (int, int) = choose|bi: int, bk: int|
                    0 <= bi < src_idx.len() && 0 <= bk < src_idx[bi].paths.len()
                        && #[trigger] src_idx[bi].paths[bk] == p;
                assert(flat.contains(indexed_item(src_idx, bi, bk)));
                let j = choose|j: int|
                    0 <= j < flat.len() && #[trigger] flat[j] == indexed_item(src_idx, bi, bk);
                assert(flat[j].path == p);
            }
            lemma_build_matches_tree(flat, tree);
        }
        build_index(&items)
    }

    fn get_checksum(&mut self, file_path: &String) -> (r: Option<String>) {
        let ghost tree = self.inner.tree();
        if !check_wire_safe(file_path) {
            proof {
                if tree.contains_key(file_path@) {
                    assert(path_wire_safe(file_path@));
                }
            }
            return None;
        }
        let cmd = format_checksum_command(file_path);
        proof {
            lemma_parse_checksum_command(file_path@);
        }
        let (resp, _quit) = manage_client(&mut self.inner, &cmd);
        proof {
            if tree.contains_key(file_path@) {
                let d = sha1_hex_of(tree[file_path@].content);
                assert forall|i: int| 0 <= i < encode_utf8(d).len() implies #[trigger] encode_utf8(
                    d,
                )[i] != 10u8 by {
                    assert(is_lower_hex_byte(encode_utf8(d)[i]));
                }
                lemma_parse_checksum_of(d);
            }
        }
        match parse_checksum_response(&resp) {
            Option::Some(db) => {
                proof {
                    if !tree.contains_key(file_path@) {
                        assert(spec_parse_checksum(resp@) is None);
                        assert(false);
                    }
                    assert(db@ == encode_utf8(sha1_hex_of(tree[file_path@].content)));
                }
                match bytes_to_string(db) {
                    Option::Some(digest) => {
                        proof {
                            assert(digest@ == sha1_hex_of(tree[file_path@].content));
                        }
                        Some(digest)
                    },
                    Option::None => {
                        proof {
                            assert(valid_utf8(encode_utf8(sha1_hex_of(tree[file_path@].content))));
                            assert(false);
                        }
                        unreached()
                    },
                }
            },
            Option::None => {
                proof {
                    if tree.contains_key(file_path@) {
                        assert(spec_parse_checksum(resp@) is Some);
                        assert(false);
                    }
                }
                None
            },
        }
    }

    fn exit(&mut self) {
        let cmd = format_exit_command();
        proof {
            lemma_parse_exit_command();
        }
        let (_resp, _quit) = manage_client(&mut self.inner, &cmd);
    }
}

/// Whether a line read from the peer is the `OK START` header: more of the
/// response follows until the `END` trailer.
pub fn is_start_line(line: &Vec<u8>) -> (r: bool)
    ensures
        r == (line@ == ok_start()),
{
    let hit = line.len() == 9 && line[0] == 79 && line[1] == 75 && line[2] == 32 && line[3] == 83
        && line[4] == 84 && line[5] == 65 && line[6] == 82 && line[7] == 84 && line[8] == 10;
    proof {
        if hit {
            assert(line@ =~= ok_start());
        }
        if line@ == ok_start() {
            assert(line@[0] == 79 && line@[1] == 75 && line@[2] == 32 && line@[3] == 83
                && line@[4] == 84 && line@[5] == 65 && line@[6] == 82 && line@[7] == 84
                && line@[8] == 10);
        }
    }
    hit
}

/// Whether a line read from the peer is the `END` trailer closing a
/// `metadata` response.
pub fn is_end_line(line: &Vec<u8>) -> (r: bool)
    ensures
        r == (line@ == end_line()),
{
    let hit = line.len() == 4 && line[0] == 69 && line[1] == 78 && line[2] == 68 && line[3] == 10;
    proof {
        if hit {
            assert(line@ =~= end_line());
        }
        if line@ == end_line() {
            assert(line@[0] == 69 && line@[1] == 78 && line@[2] == 68 && line@[3] == 10);
        }
    }
    hit
}

} // verus!
