//! The response store: canned response bodies by source name, each checked to
//! be accepted as JSON when it is loaded.

use vstd::prelude::*;

verus! {

/// Whether serde_json accepts `s` as one JSON value: well-formed JSON that
/// also stays within its nesting depth limit and its number range.
pub uninterp spec fn is_json_text(s: Seq<char>) -> bool;

/// Relies on `serde_json::from_str::<serde_json::Value>`: it succeeds exactly
/// on text that holds one JSON value, which depends on the text alone.
#[verifier::external_body]
fn parses_as_json(s: &str) -> (r: bool)
    ensures
        r == is_json_text(s@),
{
    serde_json::from_str::<serde_json::Value>(s).is_ok()
}

/// A response body and the name of the source it was read from.
#[derive(Debug, Clone)]
pub struct ResponsePayload {
    pub source: String,
    pub body: String,
}

/// The body registered last under `source` in `payloads`.
pub open spec fn payload_lookup(payloads: Seq<ResponsePayload>, source: Seq<char>) -> Option<
    Seq<char>,
>
    decreases payloads.len(),
{
    if payloads.len() == 0 {
        None
    } else if payloads.last().source@ == source {
        Some(payloads.last().body@)
    } else {
        payload_lookup(payloads.drop_last(), source)
    }
}

/// The mapping from source name to body that `payloads` describes; a name
/// given twice keeps its last body.
pub open spec fn payload_map(payloads: Seq<ResponsePayload>) -> Map<Seq<char>, Seq<char>> {
    Map::new(
        |k: Seq<char>| payload_lookup(payloads, k) is Some,
        |k: Seq<char>| payload_lookup(payloads, k)->Some_0,
    )
}

/// Why a set of response bodies could not be loaded.
#[derive(Debug, Clone, Copy, PartialEq, Eq)]
pub enum StoreError {
    /// The body at this position is not accepted as JSON.
    InvalidPayload { index: usize },
}

/// Immutable mapping from source name to validated response body.
#[derive(Debug)]
pub struct ResponseStore {
    payloads: Vec<ResponsePayload>,
}

impl View for ResponseStore {
    type V = Map<Seq<char>, Seq<char>>;

    closed spec fn view(&self) -> Map<Seq<char>, Seq<char>> {
        payload_map(self.payloads@)
    }
}

proof fn lemma_lookup_found_body(payloads: Seq<ResponsePayload>, source: Seq<char>)
    requires
        forall|i: int| 0 <= i < payloads.len() ==> is_json_text(#[trigger] payloads[i].body@),
    ensures
        payload_lookup(payloads, source) matches Some(b) ==> is_json_text(b),
    decreases payloads.len(),
{
    if payloads.len() > 0 && payloads.last().source@ != source {
        lemma_lookup_found_body(payloads.drop_last(), source);
    }
}

impl ResponseStore {
    /// Every stored body is accepted as JSON.
    pub closed spec fn wf(&self) -> bool {
        forall|i: int|
            0 <= i < self.payloads@.len() ==> is_json_text(#[trigger] self.payloads@[i].body@)
    }

    /// Every body this store hands out is accepted as JSON.
    pub proof fn lemma_bodies_are_json(&self, source: Seq<char>)
        requires
            self.wf(),
        ensures
            self@.contains_key(source) ==> is_json_text(self@[source]),
    {
        lemma_lookup_found_body(self.payloads@, source);
    }

    /// Loads `payloads`, failing on the first body that is not accepted as JSON.
    pub fn load(payloads: Vec<ResponsePayload>) -> (r: Result<ResponseStore, StoreError>)
        ensures
            r matches Ok(s) ==> s.wf() && s@ == payload_map(payloads@),
            r is Ok <==> forall|i: int|
                0 <= i < payloads@.len() ==> is_json_text(#[trigger] payloads@[i].body@),
            r matches Err(StoreError::InvalidPayload { index }) ==> index < payloads@.len()
                && !is_json_text(payloads@[index as int].body@) && forall|j: int|
                0 <= j < index ==> is_json_text(#[trigger] payloads@[j].body@),
    {
        let mut i: usize = 0;
        while i < payloads.len()
            invariant
                0 <= i <= payloads@.len(),
                forall|j: int| 0 <= j < i ==> is_json_text(#[trigger] payloads@[j].body@),
            decreases payloads@.len() - i,
        {
            if !parses_as_json(payloads[i].body.as_str()) {
                return Err(StoreError::InvalidPayload { index: i });
            }
            i = i + 1;
        }
        Ok(ResponseStore { payloads })
    }

    /// The body stored under `source`.
    pub fn get(&self, source: &String) -> (r: Option<&String>)
        ensures
            r matches Some(b) ==> self@.contains_key(source@) && b@ == self@[source@],
            r is None ==> !self@.contains_key(source@),
    {
        let mut i: usize = self.payloads.len();
        assert(self.payloads@.take(i as int) =~= self.payloads@);
        while i > 0
            invariant
                0 <= i <= self.payloads@.len(),
                payload_lookup(self.payloads@, source@) == payload_lookup(
                    self.payloads@.take(i as int),
                    source@,
                ),
            decreases i,
        {
            let p = &self.payloads[i - 1];
            assert(self.payloads@.take(i as int).drop_last() =~= self.payloads@.take(
                i - 1,
            ));
            if p.source == *source {
                return Some(&p.body);
            }
            i = i - 1;
        }
        assert(self.payloads@.take(0) =~= Seq::<ResponsePayload>::empty());
        None
    }
}

} // verus!
