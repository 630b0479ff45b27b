//! Replies to clients.
use crate::codec::{
    be, lemma_be_len, pascal, put_bytes, put_pascal, put_u32, put_u64, put_u8,
};
use crate::internode::VERSIONED_ENVELOPE_MAGIC;
use crate::text::text_views;
use vstd::prelude::*;
use vstd::string::*;
use vstd::utf8::*;

verus! {

/// What a client is answered.
#[derive(Debug)]
pub enum WireResponse {
    Success { payload: Vec<u8> },
    Failure { message: String },
}

/// A reply, as values.
pub enum ResponseView {
    Success { payload: Seq<u8> },
    Failure { message: Seq<char> },
}

impl WireResponse {
    pub open spec fn view(self) -> ResponseView {
        match self {
            WireResponse::Success { payload } => ResponseView::Success { payload: payload@ },
            WireResponse::Failure { message } => ResponseView::Failure { message: message@ },
        }
    }
}

/// Pairs of offsets.
pub open spec fn pair_bytes(s: Seq<(u64, u64)>) -> Seq<u8>
    decreases s.len(),
{
    if s.len() == 0 {
        Seq::empty()
    } else {
        pair_bytes(s.drop_last()) + be(s.last().0 as int, 8) + be(s.last().1 as int, 8)
    }
}

/// What stands before the entries in the reply to a fetch.
pub open spec fn fetch_header(lso: u64, aborted: Seq<(u64, u64)>, entries_len: int) -> Seq<u8> {
    be(lso as int, 8) + be(aborted.len() as int, 4) + pair_bytes(aborted) + be(entries_len, 4)
}

/// What stands before the entries in the reply to a fetch: the last stable offset, the aborted
/// ranges, and how many bytes follow.
pub fn fetch_entries_response_header(
    last_stable_offset: u64,
    aborted: &[(u64, u64)],
    entries_len: u32,
) -> (r: Vec<u8>)
    requires
        aborted@.len() < 0x1_0000_0000,
    ensures
        r@ == fetch_header(last_stable_offset, aborted@, entries_len as int),
{
    let mut out: Vec<u8> = Vec::new();
    put_u64(&mut out, last_stable_offset);
    put_u32(&mut out, aborted.len() as u32);
    let ghost head = out@;
    assert(head =~= be(last_stable_offset as int, 8) + be(aborted@.len() as int, 4));
    let mut i: usize = 0;
    assert(pair_bytes(aborted@.take(0)) =~= Seq::empty());
    while i < aborted.len()
        invariant
            i <= aborted.len(),
            out@ == head + pair_bytes(aborted@.take(i as int)),
        decreases aborted.len() - i,
    {
        put_u64(&mut out, aborted[i].0);
        put_u64(&mut out, aborted[i].1);
        proof {
            let next = aborted@.take(i + 1);
            assert(next.drop_last() =~= aborted@.take(i as int));
            assert(next.last() == aborted@[i as int]);
            assert(out@ =~= head + pair_bytes(next));
        }
        i = i + 1;
    }
    assert(aborted@.take(i as int) =~= aborted@);
    put_u32(&mut out, entries_len);
    assert(out@ =~= fetch_header(last_stable_offset, aborted@, entries_len as int));
    out
}

/// The reply to a fetch: the header, and the entries as they are stored.
pub fn encode_fetch_entries_response(
    last_stable_offset: u64,
    aborted: &[(u64, u64)],
    entries: &[u8],
) -> (r: Vec<u8>)
    requires
        aborted@.len() < 0x1_0000_0000,
        entries@.len() < 0x1_0000_0000,
    ensures
        r@ == fetch_header(last_stable_offset, aborted@, entries@.len() as int) + entries@,
{
    let mut out: Vec<u8> = fetch_entries_response_header(
        last_stable_offset,
        aborted,
        entries.len() as u32,
    );
    put_bytes(&mut out, entries);
    out
}

/// What stands before a payload that is sent as a success: the correlation number, if the
/// request had one, the status, and the length.
pub open spec fn envelope(correlation: Option<u32>, payload_len: int) -> Seq<u8> {
    (match correlation {
        Some(c) => seq![VERSIONED_ENVELOPE_MAGIC] + be(c as int, 4),
        None => Seq::empty(),
    }) + seq![0u8] + be(payload_len, 4)
}

/// A success as it is sent.
pub open spec fn framed_success(correlation: Option<u32>, payload: Seq<u8>) -> Seq<u8> {
    envelope(correlation, payload.len() as int) + payload
}

/// What is sent before the entries of a fetch when those go straight from the file to the
/// client. None if the length cannot be written down.
pub fn zero_copy_prefix(
    correlation: Option<u32>,
    last_stable_offset: u64,
    aborted: &[(u64, u64)],
    physical_len: u64,
) -> (r: Option<Vec<u8>>)
    requires
        aborted@.len() < 0x1_0000_0000,
    ensures
        ({
            let header = fetch_header(last_stable_offset, aborted@, physical_len as int);
            match r {
                Some(b) => header.len() + physical_len <= u32::MAX && b@ == envelope(
                    correlation,
                    header.len() + physical_len,
                ) + header,
                None => header.len() + physical_len > u32::MAX,
            }
        }),
{
    proof {
        lemma_header_len(last_stable_offset, aborted@, physical_len as int);
    }
    if physical_len > u32::MAX as u64 {
        return None;
    }
    let header: Vec<u8> = fetch_entries_response_header(
        last_stable_offset,
        aborted,
        physical_len as u32,
    );
    let room: u64 = u32::MAX as u64 - physical_len;
    if header.len() as u64 > room {
        return None;
    }
    let payload_len: u64 = header.len() as u64 + physical_len;
    let mut out: Vec<u8> = Vec::new();
    match correlation {
        Some(c) => {
            put_u8(&mut out, VERSIONED_ENVELOPE_MAGIC);
            put_u32(&mut out, c);
        },
        None => {},
    }
    put_u8(&mut out, 0);
    put_u32(&mut out, payload_len as u32);
    put_bytes(&mut out, header.as_slice());
    assert(out@ =~= envelope(correlation, payload_len as int) + header@);
    Some(out)
}

proof fn lemma_header_len(lso: u64, aborted: Seq<(u64, u64)>, n: int)
    ensures
        fetch_header(lso, aborted, n).len() == 16 + pair_bytes(aborted).len(),
{
    lemma_be_len(lso as int, 8);
    lemma_be_len(aborted.len() as int, 4);
    lemma_be_len(n, 4);
}

/// A fetch that is sent straight from the file reaches the client byte for byte as one that is
/// sent through a buffer.
pub proof fn zero_copy_changes_nothing(
    correlation: Option<u32>,
    lso: u64,
    aborted: Seq<(u64, u64)>,
    entries: Seq<u8>,
)
    ensures
        ({
            let header = fetch_header(lso, aborted, entries.len() as int);
            envelope(correlation, (header.len() + entries.len()) as int) + header + entries
                == framed_success(correlation, header + entries)
        }),
{
    let header = fetch_header(lso, aborted, entries.len() as int);
    assert(envelope(correlation, (header.len() + entries.len()) as int) + header + entries
        =~= framed_success(correlation, header + entries));
}

/// Texts with their lengths before them.
pub open spec fn texts_bytes(s: Seq<Seq<char>>) -> Seq<u8>
    decreases s.len(),
{
    if s.len() == 0 {
        Seq::empty()
    } else {
        texts_bytes(s.drop_last()) + pascal(s.last())
    }
}

/// Whether the length of a text can be written down.
pub open spec fn short_text(s: Seq<char>) -> bool {
    encode_utf8(s).len() < 0x1_0000
}

/// Whether the lengths of all texts can be written down.
pub open spec fn short_texts(s: Seq<Seq<char>>) -> bool {
    s.len() < 0x1_0000_0000 && forall|i: int| 0 <= i < s.len() ==> short_text(#[trigger] s[i])
}

/// A list of texts: how many, and each with its length before it.
pub open spec fn list_bytes(s: Seq<Seq<char>>) -> Seq<u8> {
    be(s.len() as int, 4) + texts_bytes(s)
}

/// Whether the length of a text can be written down.
pub fn is_short(s: &str) -> (r: bool)
    ensures
        r == short_text(s@),
{
    s.as_bytes().len() < 0x1_0000
}

/// Appends a list of texts, if their lengths can be written down. If not, what was appended is
/// of no use.
pub fn put_texts(out: &mut Vec<u8>, texts: &[String]) -> (ok: bool)
    ensures
        ok == short_texts(text_views(texts@)),
        ok ==> final(out)@ == old(out)@ + list_bytes(text_views(texts@)),
{
    let ghost views = text_views(texts@);
    if texts.len() as u64 >= 0x1_0000_0000 {
        return false;
    }
    let ghost start = out@;
    put_u32(out, texts.len() as u32);
    let ghost head = out@;
    let mut i: usize = 0;
    assert(texts_bytes(views.take(0)) =~= Seq::empty());
    while i < texts.len()
        invariant
            i <= texts.len(),
            views == text_views(texts@),
            forall|j: int| 0 <= j < i ==> short_text(#[trigger] views[j]),
            out@ == head + texts_bytes(views.take(i as int)),
        decreases texts.len() - i,
    {
        assert(views[i as int] == texts@[i as int]@);
        if !is_short(texts[i].as_str()) {
            assert(!short_text(views[i as int]));
            return false;
        }
        put_pascal(out, texts[i].as_str());
        proof {
            let next = views.take(i + 1);
            assert(next.drop_last() =~= views.take(i as int));
            assert(next.last() == texts@[i as int]@);
            assert(out@ =~= head + texts_bytes(next));
        }
        i = i + 1;
    }
    assert(views.take(i as int) =~= views);
    assert(out@ =~= start + list_bytes(views));
    true
}

} // verus!
