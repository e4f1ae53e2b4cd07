use crate::sets::{set_items, text_set_insert, text_set_new};
use crate::snapshot::{build_key_states, keys_header_safe, strings_view, usable_keys, RouterError};
use crate::text::{trim_text, trimmed};
use crate::usage::{split_from, strip_cr, LineBuffer};
use vstd::prelude::*;
use vstd::utf8::{decode_utf8, valid_utf8};

verus! {

/// Relies on `std::str::from_utf8`: the text when the bytes are valid UTF-8.
#[verifier::external_body]
pub(crate) fn utf8_text(b: &[u8]) -> (r: Option<String>)
    ensures
        match r {
            Some(s) => valid_utf8(b@) && s@ == decode_utf8(b@),
            None => !valid_utf8(b@),
        },
{
    std::str::from_utf8(b).ok().map(|s| s.to_string())
}

/// The lines of a text body: split at line feeds, one trailing carriage
/// return dropped from each, no empty line after a final line feed.
pub open spec fn body_lines(b: Seq<u8>) -> Seq<Seq<u8>> {
    let (ls, rest) = split_from(Seq::empty(), b);
    let all = if rest.len() > 0 {
        ls.push(rest)
    } else {
        ls
    };
    all.map_values(|l: Seq<u8>| strip_cr(l))
}

pub open spec fn all_utf8(ls: Seq<Seq<u8>>) -> bool {
    forall|i: int| 0 <= i < ls.len() ==> valid_utf8(#[trigger] ls[i])
}

pub open spec fn decoded_lines(ls: Seq<Seq<u8>>) -> Seq<Seq<char>> {
    ls.map_values(|l: Seq<u8>| decode_utf8(l))
}

/// Credentials of a `text/plain` body: one per line, trimmed, blank lines
/// skipped; `None` when the body is not UTF-8.
pub fn parse_text_keys(body: &[u8]) -> (r: Option<Vec<String>>)
    ensures
        match r {
            Some(v) => all_utf8(body_lines(body@)) && strings_view(v@) == usable_keys(decoded_lines(body_lines(body@))),
            None => !all_utf8(body_lines(body@)),
        },
{
    let mut lb = LineBuffer::new();
    let mut lines = lb.feed(body);
    let ghost (ls0, rest0) = split_from(Seq::empty(), body@);
    let tail = lb.take_rest();
    if tail.len() > 0 {
        lines.push(tail);
    }
    let ghost raw = lines@.map_values(|l: Vec<u8>| l@);
    proof {
        let all = if rest0.len() > 0 { ls0.push(rest0) } else { ls0 };
        assert(raw =~= all);
    }
    let ghost bl = body_lines(body@);
    let mut out: Vec<String> = Vec::new();
    let mut texts: Ghost<Seq<Seq<char>>> = Ghost(Seq::empty());
    let mut i: usize = 0;
    while i < lines.len()
        invariant
            raw == lines@.map_values(|l: Vec<u8>| l@),
            bl == raw.map_values(|l: Seq<u8>| strip_cr(l)),
            bl == body_lines(body@),
            i <= lines@.len(),
            all_utf8(bl.subrange(0, i as int)),
            strings_view(out@) == usable_keys(decoded_lines(bl.subrange(0, i as int))),
        decreases lines@.len() - i,
    {
        let line = lines[i].as_slice();
        let mut end = line.len();
        if end > 0 && line[end - 1] == 13 {
            end = end - 1;
        }
        let mut cut: Vec<u8> = Vec::new();
        let mut k: usize = 0;
        while k < end
            invariant
                k <= end,
                end <= line@.len(),
                cut@ == line@.subrange(0, k as int),
            decreases end - k,
        {
            cut.push(line[k]);
            k = k + 1;
            assert(cut@ =~= line@.subrange(0, k as int));
        }
        assert(cut@ =~= strip_cr(line@));
        assert(bl[i as int] == cut@);
        assert(bl.subrange(0, i + 1).drop_last() =~= bl.subrange(0, i as int));
        assert(decoded_lines(bl.subrange(0, i + 1)).drop_last() =~= decoded_lines(bl.subrange(0, i as int)));
        match utf8_text(cut.as_slice()) {
            None => {
                proof {
                    assert(!valid_utf8(bl[i as int]));
                    assert(bl.len() == lines@.len());
                    assert(!all_utf8(bl));
                }
                return None;
            },
            Some(text) => {
                let t = trim_text(text.as_str());
                let ghost before = out@;
                if t.as_str().unicode_len() != 0 {
                    out.push(t);
                    assert(strings_view(out@) =~= strings_view(before).push(t@));
                }
            },
        }
        i = i + 1;
    }
    assert(bl.subrange(0, i as int) =~= bl);
    Some(out)
}

/// Removes duplicate entries from `s`, keeping first occurrences in order.
pub open spec fn dedup(s: Seq<Seq<char>>) -> Seq<Seq<char>>
    decreases s.len(),
{
    if s.len() == 0 {
        Seq::empty()
    } else if s.drop_last().contains(s.last()) {
        dedup(s.drop_last())
    } else {
        dedup(s.drop_last()).push(s.last())
    }
}

/// Each entry trimmed, blanks dropped, and only the first of equal entries
/// kept, in order.
pub fn dedupe_keys(keys: &Vec<String>) -> (r: Vec<String>)
    ensures
        strings_view(r@) == dedup(usable_keys(strings_view(keys@))),
{
    let ghost ks = strings_view(keys@);
    let mut seen = text_set_new();
    let mut out: Vec<String> = Vec::new();
    let mut i: usize = 0;
    while i < keys.len()
        invariant
            ks == strings_view(keys@),
            i <= keys@.len(),
            set_items(seen) == usable_keys(ks.subrange(0, i as int)).to_set(),
            strings_view(out@) == dedup(usable_keys(ks.subrange(0, i as int))),
        decreases keys@.len() - i,
    {
        let ghost pre = usable_keys(ks.subrange(0, i as int));
        assert(ks.subrange(0, i + 1).drop_last() =~= ks.subrange(0, i as int));
        assert(ks.subrange(0, i + 1).last() == keys@[i as int]@);
        let t = trim_text(keys[i].as_str());
        if t.as_str().unicode_len() != 0 {
            let ghost tv = t@;
            proof {
                pre.lemma_push_to_set_commute(tv);
                assert(pre.push(tv).drop_last() =~= pre);
                assert(pre.to_set().contains(tv) == pre.contains(tv));
            }
            let fresh = text_set_insert(&mut seen, t.clone());
            if fresh {
                let ghost before = out@;
                out.push(t);
                assert(strings_view(out@) =~= strings_view(before).push(tv));
            }
        }
        i = i + 1;
    }
    assert(ks.subrange(0, i as int) =~= ks);
    out
}

/// Checks a credential list before it is stored: every entry must fit in a
/// header, and at least one must be non-blank.
pub fn validate_keys(keys: &Vec<String>) -> (r: Result<(), RouterError>)
    ensures
        match r {
            Ok(()) => keys_header_safe(strings_view(keys@)) && usable_keys(strings_view(keys@)).len() > 0,
            Err(e) => (e == RouterError::InvalidKey && !keys_header_safe(strings_view(keys@))) || (e
                == RouterError::NoKeys && keys_header_safe(strings_view(keys@)) && usable_keys(
                strings_view(keys@),
            ).len() == 0),
        },
{
    let states = build_key_states(keys)?;
    if states.len() == 0 {
        return Err(RouterError::NoKeys);
    }
    Ok(())
}

/// A line read with a CR/LF ending yields the same text as with a bare LF.
pub proof fn lemma_crlf_same_line(l: Seq<u8>)
    requires
        l.len() == 0 || l.last() != 13,
    ensures
        strip_cr(l.push(13)) == strip_cr(l),
{
    assert(l.push(13).drop_last() =~= l);
}

} // verus!
