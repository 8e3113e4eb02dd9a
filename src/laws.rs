//! Laws of the listing format: what writing a record out and reading it back gives, and how
//! the records of a listing relate to its lines.
use vstd::prelude::*;
use crate::digits::{all_digits, digit_value, is_digit, number_of, unsigned_part, value_of};
use crate::entry::{EntryView, Error, Permissions};
use crate::fields::{
    U32_MAX, U64_MAX, addresses_of, device_of, inode_of, offset_of, permissions_of, pieces_of,
    sole_separator_at,
};
use crate::record::{MIN_FIELDS, record_of, records_of, lemma_failure_persists};

verus! {

/// The lowercase digit character of value `d`, for `d` below 16.
pub open spec fn digit_char(d: nat) -> char {
    seq!['0', '1', '2', '3', '4', '5', '6', '7', '8', '9', 'a', 'b', 'c', 'd', 'e', 'f'][d as int]
}

/// `n` written in base 16 (where `radix` is 16) or base 10 (otherwise), lowercase, without
/// leading zeros.
pub open spec fn text_of(n: nat, radix: nat) -> Seq<char>
    decreases n,
{
    if radix == 16 {
        if n < 16 {
            seq![digit_char(n)]
        } else {
            text_of(n / 16, radix).push(digit_char(n % 16))
        }
    } else {
        if n < 10 {
            seq![digit_char(n)]
        } else {
            text_of(n / 10, radix).push(digit_char(n % 10))
        }
    }
}

proof fn lemma_digit_char(d: nat, radix: nat)
    requires
        radix == 10 || radix == 16,
        d < radix,
    ensures
        is_digit(digit_char(d), radix),
        digit_value(digit_char(d)) == d,
{
    if d == 0 { assert(digit_char(d) == '0'); }
    else if d == 1 { assert(digit_char(d) == '1'); }
    else if d == 2 { assert(digit_char(d) == '2'); }
    else if d == 3 { assert(digit_char(d) == '3'); }
    else if d == 4 { assert(digit_char(d) == '4'); }
    else if d == 5 { assert(digit_char(d) == '5'); }
    else if d == 6 { assert(digit_char(d) == '6'); }
    else if d == 7 { assert(digit_char(d) == '7'); }
    else if d == 8 { assert(digit_char(d) == '8'); }
    else if d == 9 { assert(digit_char(d) == '9'); }
    else if d == 10 { assert(digit_char(d) == 'a'); }
    else if d == 11 { assert(digit_char(d) == 'b'); }
    else if d == 12 { assert(digit_char(d) == 'c'); }
    else if d == 13 { assert(digit_char(d) == 'd'); }
    else if d == 14 { assert(digit_char(d) == 'e'); }
    else { assert(digit_char(d) == 'f'); }
}

/// `n` written out is a non-empty string of digits worth `n`.
proof fn lemma_text_value(n: nat, radix: nat)
    requires
        radix == 10 || radix == 16,
    ensures
        text_of(n, radix).len() > 0,
        all_digits(text_of(n, radix), radix),
        value_of(text_of(n, radix), radix) == n,
    decreases n,
{
    let t = text_of(n, radix);
    if n < radix {
        lemma_digit_char(n, radix);
        assert(t.drop_last() =~= Seq::<char>::empty());
        assert(t.last() == digit_char(n));
        assert(value_of(t, radix) == value_of(t.drop_last(), radix) * radix + digit_value(t.last()));
        assert(value_of(t.drop_last(), radix) == 0);
    } else {
        let q: nat = if radix == 16 { n / 16 } else { n / 10 };
        let d: nat = if radix == 16 { n % 16 } else { n % 10 };
        lemma_text_value(q, radix);
        lemma_digit_char(d, radix);
        assert(t == text_of(q, radix).push(digit_char(d)));
        assert(t.drop_last() =~= text_of(q, radix));
        assert(t.last() == digit_char(d));
        assert(value_of(t, radix) == value_of(t.drop_last(), radix) * radix + digit_value(t.last()));
        if radix == 16 {
            assert(q * 16 + d == n);
        } else {
            assert(q * 10 + d == n);
        }
        assert forall|i: int| 0 <= i < t.len() implies #[trigger] is_digit(t[i], radix) by {
            if i < t.len() - 1 {
                assert(t[i] == text_of(q, radix)[i]);
            }
        }
    }
}

/// A number written out reads back as itself, where it is no larger than `max`.
proof fn lemma_text_reads_back(n: nat, radix: nat, max: nat)
    requires
        radix == 10 || radix == 16,
        n <= max,
    ensures
        number_of(text_of(n, radix), radix, max) == Some(n),
{
    lemma_text_value(n, radix);
    let t = text_of(n, radix);
    assert(is_digit(t[0], radix));
    assert(unsigned_part(t) == t);
}

/// Two digit strings joined by a separator that is no digit split back into the two.
proof fn lemma_pieces_of_join(a: Seq<char>, b: Seq<char>, sep: char, radix: nat)
    requires
        all_digits(a, radix),
        all_digits(b, radix),
        !is_digit(sep, radix),
    ensures
        pieces_of(a + seq![sep] + b, sep) == Some((a, b)),
{
    let s = a + seq![sep] + b;
    let k = a.len() as int;
    assert(s[k] == sep);
    assert forall|j: int| 0 <= j < s.len() && s[j] == sep implies j == k by {
        if j < k {
            assert(s[j] == a[j]);
            assert(is_digit(a[j], radix));
        } else if j > k {
            assert(s[j] == b[j - k - 1]);
            assert(is_digit(b[j - k - 1], radix));
        }
    }
    assert(sole_separator_at(s, sep, k));
    let c = choose|c: int| sole_separator_at(s, sep, c);
    assert(c == k);
    assert(s.take(k) =~= a);
    assert(s.skip(k + 1) =~= b);
}

/// The letters that write the flags `p`, with `p` for a private mapping in fourth place.
pub open spec fn permissions_text(p: Permissions) -> Seq<char> {
    seq![
        if p.read { 'r' } else { '-' },
        if p.write { 'w' } else { '-' },
        if p.execute { 'x' } else { '-' },
        'p',
    ]
}

/// The tokens of the line that writes `e` in the listing's format: `start-end perms offset
/// major:minor inode`, numbers in lowercase hexadecimal but for the decimal inode, then the
/// path if there is one.
pub open spec fn line_tokens(e: EntryView) -> Seq<Seq<char>> {
    let fields = seq![
        text_of(e.start_addr as nat, 16) + seq!['-'] + text_of(e.end_addr as nat, 16),
        permissions_text(e.perms),
        text_of(e.offset as nat, 16),
        text_of(e.dev_maj as nat, 16) + seq![':'] + text_of(e.dev_min as nat, 16),
        text_of(e.inode as nat, 10),
    ];
    match e.path {
        Some(p) => fields.push(p),
        None => fields,
    }
}

proof fn lemma_pair_reads_back(x: nat, y: nat, sep: char, max: nat)
    requires
        x <= max,
        y <= max,
        !is_digit(sep, 16),
    ensures
        pieces_of(text_of(x, 16) + seq![sep] + text_of(y, 16), sep) == Some(
            (text_of(x, 16), text_of(y, 16)),
        ),
        number_of(text_of(x, 16), 16, max) == Some(x),
        number_of(text_of(y, 16), 16, max) == Some(y),
{
    lemma_text_value(x, 16);
    lemma_text_value(y, 16);
    lemma_text_reads_back(x, 16, max);
    lemma_text_reads_back(y, 16, max);
    lemma_pieces_of_join(text_of(x, 16), text_of(y, 16), sep, 16);
}

/// Writing a record out as a line and decoding that line's tokens gives the record back:
/// every number, flag and the path are kept.
pub proof fn lemma_round_trip(e: EntryView)
    ensures
        record_of(line_tokens(e)) == Ok::<Option<EntryView>, Error>(Some(e)),
{
    let t = line_tokens(e);
    lemma_pair_reads_back(e.start_addr as nat, e.end_addr as nat, '-', U64_MAX as nat);
    lemma_pair_reads_back(e.dev_maj as nat, e.dev_min as nat, ':', U32_MAX as nat);
    lemma_text_reads_back(e.offset as nat, 16, U64_MAX as nat);
    lemma_text_reads_back(e.inode as nat, 10, U32_MAX as nat);
    assert(addresses_of(t[0]) == Ok::<(u64, u64), Error>((e.start_addr, e.end_addr)));
    assert(permissions_of(t[1]) == Ok::<Permissions, Error>(e.perms));
    assert(offset_of(t[2]) == Ok::<u64, Error>(e.offset));
    assert(device_of(t[3]) == Ok::<(u32, u32), Error>((e.dev_maj, e.dev_min)));
    assert(inode_of(t[4]) == Ok::<u32, Error>(e.inode));
    assert(t.len() >= MIN_FIELDS);
}

/// How many of the lines with tokens `ts` have five or more tokens.
pub open spec fn long_line_count(ts: Seq<Seq<Seq<char>>>) -> nat
    decreases ts.len(),
{
    if ts.len() == 0 {
        0
    } else {
        long_line_count(ts.drop_last()) + if ts.last().len() >= MIN_FIELDS {
            1nat
        } else {
            0nat
        }
    }
}

/// Where no line of five or more tokens fails to decode, the listing decodes, with one record
/// for each such line.
pub proof fn lemma_record_count(ts: Seq<Seq<Seq<char>>>)
    requires
        forall|k: int| 0 <= k < ts.len() && ts[k].len() >= MIN_FIELDS ==> #[trigger] record_of(ts[k]) is Ok,
    ensures
        records_of(ts) is Ok,
        records_of(ts)->Ok_0.len() == long_line_count(ts),
    decreases ts.len(),
{
    if ts.len() > 0 {
        let p = ts.drop_last();
        assert forall|k: int| 0 <= k < p.len() && p[k].len() >= MIN_FIELDS implies #[trigger] record_of(p[k]) is Ok by {
            assert(p[k] == ts[k]);
        }
        lemma_record_count(p);
        assert(ts.last() == ts[ts.len() - 1]);
    }
}

/// The records of a prefix of the lines are the matching prefix of the records of all of
/// them.
proof fn lemma_prefix_records(ts: Seq<Seq<Seq<char>>>, i: int)
    requires
        records_of(ts) is Ok,
        0 <= i <= ts.len(),
    ensures
        records_of(ts.take(i)) is Ok,
        long_line_count(ts.take(i)) <= records_of(ts)->Ok_0.len(),
        records_of(ts.take(i))->Ok_0 == records_of(ts)->Ok_0.take(long_line_count(ts.take(i)) as int),
    decreases ts.len() - i,
{
    let es = records_of(ts)->Ok_0;
    if i == ts.len() {
        assert(ts.take(i) =~= ts);
        lemma_count_is_length(ts);
        assert(es.take(es.len() as int) =~= es);
    } else {
        lemma_prefix_records(ts, i + 1);
        let longer = ts.take(i + 1);
        assert(longer.drop_last() =~= ts.take(i));
        assert(longer.last() == ts[i]);
        let p1 = records_of(longer)->Ok_0;
        let c1 = long_line_count(longer);
        let c0 = long_line_count(ts.take(i));
        assert(records_of(ts.take(i)) is Ok);
        let p0 = records_of(ts.take(i))->Ok_0;
        lemma_count_is_length(ts.take(i));
        assert(p0.len() == c0);
        match record_of(ts[i]) {
            Ok(Some(x)) => {
                assert(p1 == p0.push(x));
                assert(c1 == c0 + 1);
                assert(p0 =~= p1.take(c0 as int));
            },
            _ => {
                assert(p1 == p0);
                assert(c1 == c0);
                assert(p0 =~= p1.take(c0 as int));
            },
        }
        assert(p0 =~= es.take(c0 as int));
    }
}

/// Where the listing decodes, it has as many records as lines of five or more tokens.
proof fn lemma_count_is_length(ts: Seq<Seq<Seq<char>>>)
    requires
        records_of(ts) is Ok,
    ensures
        records_of(ts)->Ok_0.len() == long_line_count(ts),
    decreases ts.len(),
{
    if ts.len() > 0 {
        lemma_count_is_length(ts.drop_last());
    }
}

/// The record of the line at `k`, a line of five or more tokens, stands at the place that the
/// number of such lines before it gives.
proof fn lemma_record_place(ts: Seq<Seq<Seq<char>>>, k: int)
    requires
        records_of(ts) is Ok,
        0 <= k < ts.len(),
        ts[k].len() >= MIN_FIELDS,
    ensures
        long_line_count(ts.take(k)) < records_of(ts)->Ok_0.len(),
        record_of(ts[k]) matches Ok(Some(x)) && records_of(ts)->Ok_0[long_line_count(ts.take(k)) as int] == x,
{
    lemma_prefix_records(ts, k + 1);
    lemma_prefix_records(ts, k);
    let longer = ts.take(k + 1);
    assert(longer.drop_last() =~= ts.take(k));
    assert(longer.last() == ts[k]);
    let c: int = long_line_count(ts.take(k)) as int;
    let es = records_of(ts)->Ok_0;
    assert(records_of(longer)->Ok_0 == es.take(c + 1));
    assert(es.take(c + 1)[c] == es[c]);
}

/// The count of long lines grows along the lines.
proof fn lemma_count_grows(ts: Seq<Seq<Seq<char>>>, j: int, k: int)
    requires
        0 <= j < k <= ts.len(),
        ts[j].len() >= MIN_FIELDS,
    ensures
        long_line_count(ts.take(j)) < long_line_count(ts.take(k)),
    decreases k - j,
{
    assert(ts.take(j + 1).drop_last() =~= ts.take(j));
    assert(ts.take(j + 1).last() == ts[j]);
    if k > j + 1 {
        lemma_count_grows_le(ts, j + 1, k);
    }
}

proof fn lemma_count_grows_le(ts: Seq<Seq<Seq<char>>>, j: int, k: int)
    requires
        0 <= j <= k <= ts.len(),
    ensures
        long_line_count(ts.take(j)) <= long_line_count(ts.take(k)),
    decreases k - j,
{
    if j < k {
        lemma_count_grows_le(ts, j, k - 1);
        assert(ts.take(k).drop_last() =~= ts.take(k - 1));
    }
}

/// Records keep the order of their lines: of two lines of five or more tokens, the earlier
/// one's record comes first, and each record stands after as many records as there are such
/// lines before its own.
pub proof fn lemma_order_kept(ts: Seq<Seq<Seq<char>>>, j: int, k: int)
    requires
        records_of(ts) is Ok,
        0 <= j < k < ts.len(),
        ts[j].len() >= MIN_FIELDS,
        ts[k].len() >= MIN_FIELDS,
    ensures
        long_line_count(ts.take(j)) < long_line_count(ts.take(k)),
        record_of(ts[j]) matches Ok(Some(x)) && records_of(ts)->Ok_0[long_line_count(ts.take(j)) as int] == x,
        record_of(ts[k]) matches Ok(Some(y)) && records_of(ts)->Ok_0[long_line_count(ts.take(k)) as int] == y,
{
    lemma_count_grows(ts, j, k);
    lemma_record_place(ts, j);
    lemma_record_place(ts, k);
}

/// A line of fewer than five tokens, wherever it stands, changes nothing: neither the records
/// nor the failure.
pub proof fn lemma_short_line_skipped(before: Seq<Seq<Seq<char>>>, t: Seq<Seq<char>>, after: Seq<Seq<Seq<char>>>)
    requires
        t.len() < MIN_FIELDS,
    ensures
        records_of(before + seq![t] + after) == records_of(before + after),
    decreases after.len(),
{
    let with = before + seq![t] + after;
    let without = before + after;
    if after.len() == 0 {
        assert(with.drop_last() =~= before);
        assert(without =~= before);
    } else {
        lemma_short_line_skipped(before, t, after.drop_last());
        assert(with.drop_last() =~= before + seq![t] + after.drop_last());
        assert(without.drop_last() =~= before + after.drop_last());
        assert(with.last() == without.last());
    }
}

/// A line of five or more tokens whose address range does not decode fails the whole
/// listing.
pub proof fn lemma_bad_address_fails(ts: Seq<Seq<Seq<char>>>, k: int)
    requires
        0 <= k < ts.len(),
        ts[k].len() >= MIN_FIELDS,
        addresses_of(ts[k][0]) is Err,
    ensures
        records_of(ts) is Err,
{
    let longer = ts.take(k + 1);
    assert(longer.drop_last() =~= ts.take(k));
    assert(longer.last() == ts[k]);
    assert(records_of(longer) is Err);
    lemma_failure_persists(ts, k + 1);
}

} // verus!
