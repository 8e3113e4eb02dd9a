//! Records: a line split into whitespace-separated tokens, decoded by position.
use vstd::prelude::*;
use crate::entry::{Entries, Entry, EntryView, Error, views_of};
use crate::fields::{
    addresses_of, device_of, inode_of, offset_of, parse_addresses, parse_device, parse_inode,
    parse_offset, parse_params, permissions_of,
};

verus! {

/// The whitespace-separated tokens of a line, in order.
pub uninterp spec fn whitespace_tokens(s: Seq<char>) -> Seq<Seq<char>>;

/// Relies on str::split_whitespace: the tokens, in order, depend on the line's characters
/// alone, and a line without characters has none.
#[verifier::external_body]
fn split_tokens<'a>(line: &'a str) -> (r: Vec<&'a str>)
    ensures
        r@.map_values(|t: &str| t@) == whitespace_tokens(line@),
        line@.len() == 0 ==> r@.len() == 0,
{
    line.split_whitespace().collect()
}

/// The fewest tokens that a line must have to hold a record.
pub const MIN_FIELDS: usize = 5;

/// The record that the tokens `t` of one line give: none where there are fewer than five;
/// otherwise the address range, permissions, offset, device pair and inode decoded from the
/// first five, in that order, with the first failure returned, and the sixth token, if any, as
/// the path.
pub open spec fn record_of(t: Seq<Seq<char>>) -> Result<Option<EntryView>, Error> {
    if t.len() < MIN_FIELDS {
        Ok(None)
    } else {
        match addresses_of(t[0]) {
            Err(e) => Err(e),
            Ok((start_addr, end_addr)) => match permissions_of(t[1]) {
                Err(e) => Err(e),
                Ok(perms) => match offset_of(t[2]) {
                    Err(e) => Err(e),
                    Ok(offset) => match device_of(t[3]) {
                        Err(e) => Err(e),
                        Ok((dev_maj, dev_min)) => match inode_of(t[4]) {
                            Err(e) => Err(e),
                            Ok(inode) => Ok(
                                Some(
                                    EntryView {
                                        start_addr,
                                        end_addr,
                                        perms,
                                        offset,
                                        dev_maj,
                                        dev_min,
                                        inode,
                                        path: if t.len() > MIN_FIELDS {
                                            Some(t[5])
                                        } else {
                                            None
                                        },
                                    },
                                ),
                            ),
                        },
                    },
                },
            },
        }
    }
}

pub open spec fn record_view(r: Result<Option<Entry>, Error>) -> Result<Option<EntryView>, Error> {
    match r {
        Ok(Some(e)) => Ok(Some(e@)),
        Ok(None) => Ok(None),
        Err(e) => Err(e),
    }
}

/// The records of a listing whose lines have the tokens `ts`: one for each line of five or
/// more tokens, in the order of the lines, or the first failure to decode such a line.
pub open spec fn records_of(ts: Seq<Seq<Seq<char>>>) -> Result<Seq<EntryView>, Error>
    decreases ts.len(),
{
    if ts.len() == 0 {
        Ok(Seq::empty())
    } else {
        match records_of(ts.drop_last()) {
            Err(e) => Err(e),
            Ok(es) => match record_of(ts.last()) {
                Err(e) => Err(e),
                Ok(None) => Ok(es),
                Ok(Some(x)) => Ok(es.push(x)),
            },
        }
    }
}

pub open spec fn listing_view(r: Result<Entries, Error>) -> Result<Seq<EntryView>, Error> {
    match r {
        Ok(es) => Ok(es@),
        Err(e) => Err(e),
    }
}

/// The tokens of each line, in order.
pub open spec fn tokenized(lines: Seq<String>) -> Seq<Seq<Seq<char>>> {
    lines.map_values(|l: String| whitespace_tokens(l@))
}

/// Once a prefix of the lines fails, the whole listing fails the same way.
pub proof fn lemma_failure_persists(ts: Seq<Seq<Seq<char>>>, i: int)
    requires
        0 <= i <= ts.len(),
        records_of(ts.take(i)) is Err,
    ensures
        records_of(ts) == records_of(ts.take(i)),
    decreases ts.len() - i,
{
    if i < ts.len() {
        assert(ts.take(i + 1).drop_last() =~= ts.take(i));
        lemma_failure_persists(ts, i + 1);
    } else {
        assert(ts.take(i) =~= ts);
    }
}

/// Decodes the tokens of one line: no record where there are fewer than five tokens, else the
/// record they give or the first field that fails.
pub fn parse_fields(tokens: &Vec<&str>) -> (r: Result<Option<Entry>, Error>)
    ensures
        record_view(r) == record_of(tokens@.map_values(|t: &str| t@)),
{
    if tokens.len() < MIN_FIELDS {
        return Ok(None);
    }
    let (start_addr, end_addr) = match parse_addresses(tokens[0]) {
        Ok(v) => v,
        Err(e) => return Err(e),
    };
    let perms = match parse_params(tokens[1]) {
        Ok(v) => v,
        Err(e) => return Err(e),
    };
    let offset = match parse_offset(tokens[2]) {
        Ok(v) => v,
        Err(e) => return Err(e),
    };
    let (dev_maj, dev_min) = match parse_device(tokens[3]) {
        Ok(v) => v,
        Err(e) => return Err(e),
    };
    let inode = match parse_inode(tokens[4]) {
        Ok(v) => v,
        Err(e) => return Err(e),
    };
    let path = if tokens.len() > MIN_FIELDS {
        Some(tokens[5].to_owned())
    } else {
        None
    };
    Ok(Some(Entry { start_addr, end_addr, perms, offset, dev_maj, dev_min, inode, path }))
}

/// Decodes one line of a listing.
pub fn parse_line(line: &str) -> (r: Result<Option<Entry>, Error>)
    ensures
        record_view(r) == record_of(whitespace_tokens(line@)),
{
    let tokens = split_tokens(line);
    parse_fields(&tokens)
}

/// Decodes a listing line by line: lines of fewer than five tokens are passed over, every
/// other line gives one record, in order, and the first line that fails to decode fails the
/// whole listing.
pub fn parse_lines(lines: &Vec<String>) -> (r: Result<Entries, Error>)
    ensures
        listing_view(r) == records_of(tokenized(lines@)),
{
    let ghost all = tokenized(lines@);
    let mut out: Vec<Entry> = Vec::new();
    let mut i: usize = 0;
    assert(views_of(out@) =~= Seq::<EntryView>::empty());
    assert(all.take(0).len() == 0);
    while i < lines.len()
        invariant
            i <= lines@.len(),
            all == tokenized(lines@),
            records_of(all.take(i as int)) == Ok::<Seq<EntryView>, Error>(views_of(out@)),
        decreases lines@.len() - i,
    {
        let rec = parse_line(lines[i].as_str());
        let ghost before = views_of(out@);
        proof {
            assert(all.take(i + 1).drop_last() =~= all.take(i as int));
            assert(all.take(i + 1).last() == whitespace_tokens(lines@[i as int]@));
        }
        match rec {
            Ok(Some(e)) => {
                out.push(e);
                assert(views_of(out@) =~= before.push(e@));
            },
            Ok(None) => {},
            Err(e) => {
                proof {
                    lemma_failure_persists(all, i + 1);
                }
                return Err(e);
            },
        }
        i = i + 1;
    }
    assert(all.take(i as int) =~= all);
    Ok(Entries::new(out))
}

} // verus!
