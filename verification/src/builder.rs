//! Fluent accumulator for building an [`Entry`].
//!
//! Every field has a setter; the identifiers default to zero and the
//! auxiliary headers to none.  The kv header is the one mandatory field:
//! callers must set it before `build`, which the `build` precondition makes
//! unrepresentable in verified use rather than a runtime fault.

use vstd::prelude::*;

use crate::entry::Entry;
use crate::header::Header;
use crate::header::SpecHeader;
use crate::util::Attr;
use crate::util::Magic;

verus! {

/// Mathematical image of a builder: what has been set so far.
#[verifier::ext_equal]
pub ghost struct SpecBuilder {
    pub attr: i32,
    pub log_id: i64,
    pub entry_id: i64,
    pub last_confirm_id: i64,
    pub kv: Option<SpecHeader>,
    pub headers: Seq<SpecHeader>,
}

/// Accumulates the fields of an entry before it is built.
pub struct EntryBuilder {
    attr: Attr,
    log_id: i64,
    entry_id: i64,
    last_confirm_id: i64,
    kv: Option<Header>,
    headers: Vec<Header>,
}

impl View for EntryBuilder {
    type V = SpecBuilder;

    closed spec fn view(&self) -> SpecBuilder {
        SpecBuilder {
            attr: self.attr@,
            log_id: self.log_id,
            entry_id: self.entry_id,
            last_confirm_id: self.last_confirm_id,
            kv: match self.kv {
                Some(h) => Some(h@),
                None => None,
            },
            headers: Seq::new(self.headers@.len(), |i: int| self.headers@[i]@),
        }
    }
}

impl Default for EntryBuilder {
    /// An empty builder: zero identifiers, the zero attribute, no headers,
    /// and no kv header yet.
    fn default() -> (r: EntryBuilder)
        ensures
            r@ == (SpecBuilder {
                attr: 0,
                log_id: 0,
                entry_id: 0,
                last_confirm_id: 0,
                kv: None,
                headers: Seq::empty(),
            }),
    {
        EntryBuilder::new()
    }
}

impl EntryBuilder {
    /// An empty builder: zero identifiers, the zero attribute, no headers,
    /// and no kv header yet.
    pub fn new() -> (r: EntryBuilder)
        ensures
            r@ == (SpecBuilder {
                attr: 0,
                log_id: 0,
                entry_id: 0,
                last_confirm_id: 0,
                kv: None,
                headers: Seq::empty(),
            }),
    {
        let b = EntryBuilder {
            attr: Attr::new(0),
            log_id: 0,
            entry_id: 0,
            last_confirm_id: 0,
            kv: None,
            headers: Vec::new(),
        };
        proof {
            assert(b@.headers =~= Seq::<SpecHeader>::empty());
            assert(b@ =~~= (SpecBuilder {
                attr: 0,
                log_id: 0,
                entry_id: 0,
                last_confirm_id: 0,
                kv: None,
                headers: Seq::empty(),
            }));
        }
        b
    }

    /// Sets the record attribute tag.
    pub fn attr(self, attr: Attr) -> (r: EntryBuilder)
        ensures
            r@ == (SpecBuilder { attr: attr@, ..self@ }),
    {
        let r = EntryBuilder { attr, ..self };
        proof {
            assert(r@ =~~= (SpecBuilder { attr: attr@, ..self@ }));
        }
        r
    }

    /// Sets the log id.
    pub fn log_id(self, log_id: i64) -> (r: EntryBuilder)
        ensures
            r@ == (SpecBuilder { log_id: log_id, ..self@ }),
    {
        let r = EntryBuilder { log_id, ..self };
        proof {
            assert(r@ =~~= (SpecBuilder { log_id: log_id, ..self@ }));
        }
        r
    }

    /// Sets the entry id.
    pub fn entry_id(self, entry_id: i64) -> (r: EntryBuilder)
        ensures
            r@ == (SpecBuilder { entry_id: entry_id, ..self@ }),
    {
        let r = EntryBuilder { entry_id, ..self };
        proof {
            assert(r@ =~~= (SpecBuilder { entry_id: entry_id, ..self@ }));
        }
        r
    }

    /// Sets the last-add-confirmed id.
    pub fn last_confirm(self, last_confirm_id: i64) -> (r: EntryBuilder)
        ensures
            r@ == (SpecBuilder { last_confirm_id: last_confirm_id, ..self@ }),
    {
        let r = EntryBuilder { last_confirm_id, ..self };
        proof {
            assert(r@ =~~= (SpecBuilder { last_confirm_id: last_confirm_id, ..self@ }));
        }
        r
    }

    /// Sets the last-add-confirmed id, under its long name.
    pub fn last_confirm_id(self, last_confirm_id: i64) -> (r: EntryBuilder)
        ensures
            r@ == (SpecBuilder { last_confirm_id: last_confirm_id, ..self@ }),
    {
        self.last_confirm(last_confirm_id)
    }

    /// Sets the designated kv header from a key and a value.
    pub fn kv(self, key: Vec<u8>, value: Vec<u8>) -> (r: EntryBuilder)
        ensures
            r@ == (SpecBuilder {
                kv: Some(SpecHeader { key: key@, value: value@ }),
                ..self@
            }),
    {
        let ghost k = key@;
        let ghost v = value@;
        let r = EntryBuilder { kv: Some(Header::new(key, value)), ..self };
        proof {
            assert(r@ =~~= (SpecBuilder { kv: Some(SpecHeader { key: k, value: v }), ..self@ }));
        }
        r
    }

    /// Appends one auxiliary header; call order is preserved.
    pub fn header(self, header: Header) -> (r: EntryBuilder)
        ensures
            r@ == (SpecBuilder { headers: self@.headers.push(header@), ..self@ }),
    {
        let ghost hv = header@;
        let mut headers = self.headers;
        headers.push(header);
        let r = EntryBuilder {
            attr: self.attr,
            log_id: self.log_id,
            entry_id: self.entry_id,
            last_confirm_id: self.last_confirm_id,
            kv: self.kv,
            headers,
        };
        proof {
            assert(r@.headers =~= self@.headers.push(hv));
            assert(r@ =~~= (SpecBuilder { headers: self@.headers.push(hv), ..self@ }));
        }
        r
    }

    /// Whether the mandatory kv header has been set.
    pub fn has_kv(&self) -> (r: bool)
        ensures
            r == (self@.kv is Some),
    {
        self.kv.is_some()
    }

    /// Produces the entry.  The kv header must have been set: calling
    /// `build` without it is a programmer fault that verified callers are
    /// required to rule out.
    pub fn build(self) -> (r: Entry)
        requires
            self@.kv is Some,
        ensures
            r@.magic == Magic::V1,
            r@.attr == self@.attr,
            r@.log_id == self@.log_id,
            r@.entry_id == self@.entry_id,
            r@.last_confirm_id == self@.last_confirm_id,
            r@.headers == self@.headers,
            r@.kv == self@.kv->Some_0,
    {
        let kv = self.kv.unwrap();
        let r = Entry::from_parts(
            self.attr,
            self.log_id,
            self.entry_id,
            self.last_confirm_id,
            self.headers,
            kv,
        );
        proof {
            assert(r@.headers =~= self@.headers);
        }
        r
    }
}

} // verus!
