//! The durability log's reading side: a forward-only decoder over the
//! bytes of a log.
use vstd::prelude::*;
use vstd::slice::{slice_subrange, slice_to_vec};
use crate::codec::{lemma_le_value_bound, lemma_pow256_facts, parse_log, parse_record, read_le};
use crate::mem_table::opt_view;
use crate::record::Record;

verus! {

/// A record as decoded from a log.
pub struct WALEntry {
    pub key: Vec<u8>,
    pub value: Option<Vec<u8>>,
    pub timestamp: u128,
    pub deleted: bool,
}

impl View for WALEntry {
    type V = Record;

    open spec fn view(&self) -> Record {
        Record {
            key: self.key@,
            value: opt_view(self.value),
            timestamp: self.timestamp,
            deleted: self.deleted,
        }
    }
}

/// Decodes the record that starts at `pos` in `b`: the record and the
/// position just past it, or `None` where `b` ends before a whole record.
pub fn decode_at(b: &[u8], pos: usize) -> (r: Option<(WALEntry, usize)>)
    requires
        pos <= b@.len(),
    ensures
        match parse_record(b@.subrange(pos as int, b@.len() as int)) {
            Some((rec, n)) => r matches Some((e, end)) && e@ == rec && end == pos + n,
            None => r is None,
        },
        r matches Some((e, end)) ==> pos < end <= b@.len(),
{
    reveal(parse_record);
    let ghost rest = b@.subrange(pos as int, b@.len() as int);
    proof {
        lemma_pow256_facts();
    }
    let len = b.len();
    if len - pos < 9 {
        return None;
    }
    let key_len = read_le(b, pos, 8);
    proof {
        assert(b@.subrange(pos as int, pos + 8) =~= rest.subrange(0, 8));
        lemma_le_value_bound(rest.subrange(0, 8));
    }
    let at = pos + 9;
    if b[pos + 8] != 0 {
        if key_len > (len - at) as u128 || (len - at) as u128 - key_len < 16 {
            return None;
        }
        let k = key_len as usize;
        let key = slice_to_vec(slice_subrange(b, at, at + k));
        let timestamp = read_le(b, at + k, 16);
        proof {
            assert(key@ =~= rest.subrange(9, 9 + k));
            assert(b@.subrange(at + k, at + k + 16) =~= rest.subrange(9 + k, 9 + k + 16));
        }
        Some((WALEntry { key, value: None, timestamp, deleted: true }, at + k + 16))
    } else {
        if len - at < 8 {
            return None;
        }
        let value_len = read_le(b, at, 8);
        proof {
            assert(b@.subrange(at as int, at + 8) =~= rest.subrange(9, 17));
            lemma_le_value_bound(rest.subrange(9, 17));
        }
        let kat = at + 8;
        if key_len > (len - kat) as u128 {
            return None;
        }
        let k = key_len as usize;
        if value_len > (len - kat - k) as u128 {
            return None;
        }
        let v = value_len as usize;
        if len - kat - k - v < 16 {
            return None;
        }
        let key = slice_to_vec(slice_subrange(b, kat, kat + k));
        let value = slice_to_vec(slice_subrange(b, kat + k, kat + k + v));
        let timestamp = read_le(b, kat + k + v, 16);
        proof {
            assert(key@ =~= rest.subrange(17, 17 + k));
            assert(value@ =~= rest.subrange(17 + k, 17 + k + v));
            assert(b@.subrange(kat + k + v, kat + k + v + 16) =~= rest.subrange(
                17 + k + v,
                17 + k + v + 16,
            ));
        }
        Some((WALEntry { key, value: Some(value), timestamp, deleted: false }, kat + k + v + 16))
    }
}

/// Walks the records of a log in order, once. A record that the bytes cut
/// short ends the walk, as the end of the log does.
pub struct WALIterator {
    bytes: Vec<u8>,
    pos: usize,
}

impl WALIterator {
    /// The bytes not yet decoded.
    pub closed spec fn remaining(&self) -> Seq<u8> {
        self.bytes@.subrange(self.pos as int, self.bytes@.len() as int)
    }

    pub closed spec fn wf(&self) -> bool {
        self.pos <= self.bytes@.len()
    }

    /// A decoder positioned at the start of the log `bytes`.
    pub fn from_bytes(bytes: Vec<u8>) -> (r: WALIterator)
        ensures
            r.wf(),
            r.remaining() == bytes@,
    {
        let r = WALIterator { bytes, pos: 0 };
        assert(r.remaining() =~= r.bytes@);
        r
    }

    /// The next record, or `None` once the log ends or its next record is
    /// cut short; after `None` every later call gives `None` too.
    pub fn next(&mut self) -> (r: Option<WALEntry>)
        requires
            old(self).wf(),
        ensures
            final(self).wf(),
            match parse_record(old(self).remaining()) {
                Some((rec, n)) => r matches Some(e) && e@ == rec && final(self).remaining()
                    == old(self).remaining().subrange(n as int, old(self).remaining().len() as int),
                None => r is None && final(self).remaining() == Seq::<u8>::empty(),
            },
    {
        match decode_at(self.bytes.as_slice(), self.pos) {
            Some((e, end)) => {
                let ghost before = self.remaining();
                self.pos = end;
                assert(self.remaining() =~= before.subrange(end - old(self).pos, before.len() as int));
                Some(e)
            },
            None => {
                self.pos = self.bytes.len();
                assert(self.remaining() =~= Seq::<u8>::empty());
                None
            },
        }
    }
}

pub open spec fn entries_view(es: Seq<WALEntry>) -> Seq<Record> {
    es.map_values(|e: WALEntry| e@)
}

/// Every record of the log `b`, in order, up to the first one cut short.
pub fn decode_all(b: &[u8]) -> (r: Vec<WALEntry>)
    ensures
        entries_view(r@) == parse_log(b@),
{
    let mut out: Vec<WALEntry> = Vec::new();
    let mut pos: usize = 0;
    assert(b@.subrange(0, b@.len() as int) =~= b@);
    loop
        invariant
            pos <= b@.len(),
            entries_view(out@) + parse_log(b@.subrange(pos as int, b@.len() as int)) == parse_log(b@),
        decreases b@.len() - pos,
    {
        let ghost rest = b@.subrange(pos as int, b@.len() as int);
        match decode_at(b, pos) {
            Some((e, end)) => {
                let ghost n = end - pos;
                assert(rest.subrange(n, rest.len() as int) =~= b@.subrange(end as int, b@.len() as int));
                assert(parse_log(rest) == seq![e@] + parse_log(rest.subrange(n, rest.len() as int)));
                let ghost old_out = out@;
                out.push(e);
                assert(entries_view(out@) =~= entries_view(old_out) + seq![e@]);
                assert(entries_view(out@) + parse_log(b@.subrange(end as int, b@.len() as int))
                    =~= entries_view(old_out) + parse_log(rest));
                pos = end;
            },
            None => {
                assert(parse_log(rest) == Seq::<Record>::empty());
                assert(entries_view(out@) + parse_log(rest) =~= entries_view(out@));
                return out;
            },
        }
    }
}

} // verus!
