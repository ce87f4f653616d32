//! The validated witness bundle for one program execution.
//!
//! [`ProgramInputs`] is the single construction boundary between untrusted
//! host integers and the internal field representation: construction either
//! fully succeeds, yielding an immutable bundle of validated stack, tape,
//! map and set containers, or fails with a construction error and produces
//! no value.

use crate::advice::AdviceSet;
use crate::field::Felt;
use crate::field::MODULUS;
use crate::field::lemma_word_bytes_injective;
use crate::field::word_bytes;
use crate::field::word_to_bytes;
use vstd::prelude::*;

verus! {

/// Failures of input construction. Construction either fully succeeds or
/// returns one of these; there is no partially-valid [`ProgramInputs`].
#[derive(Clone, Debug)]
pub enum InputError {
    /// A supplied integer is not representable in the field; carries the raw
    /// value and the name of the input it was supplied for.
    NotFieldElement(u64, &'static str),
    /// Two supplied advice sets share a root; carries that root's 32-byte
    /// encoding.
    DuplicateAdviceRoot(Vec<u8>),
}

/// Whether every value of the sequence is a valid field element.
pub open spec fn all_field_elements(vals: Seq<u64>) -> bool {
    forall|i: int| 0 <= i < vals.len() ==> #[trigger] vals[i] < MODULUS
}

/// The position of the first value that is not a valid field element.
pub open spec fn first_non_element(vals: Seq<u64>) -> int
    decreases vals.len(),
{
    if vals.len() == 0 {
        0
    } else if vals[0] >= MODULUS {
        0
    } else {
        1 + first_non_element(vals.drop_first())
    }
}

/// `first_non_element` names the position of the first invalid value.
proof fn lemma_first_non_element_at(vals: Seq<u64>, i: int)
    requires
        0 <= i < vals.len(),
        vals[i] >= MODULUS,
        forall|j: int| 0 <= j < i ==> #[trigger] vals[j] < MODULUS,
    ensures
        first_non_element(vals) == i,
    decreases i,
{
    if i > 0 {
        assert(vals.drop_first()[i - 1] == vals[i]);
        assert forall|j: int| 0 <= j < i - 1 implies #[trigger] vals.drop_first()[j]
            < MODULUS by {
            assert(vals.drop_first()[j] == vals[j + 1]);
        }
        lemma_first_non_element_at(vals.drop_first(), i - 1);
    }
}

/// Whether the set at position `i` repeats the root of an earlier set.
pub open spec fn duplicate_in_prefix(sets: Seq<AdviceSet>, i: int) -> bool {
    exists|j: int| 0 <= j < i && (#[trigger] sets[j]).root_view() == sets[i].root_view()
}

/// Whether any two of the given advice sets share a root.
pub open spec fn has_duplicate_root(sets: Seq<AdviceSet>) -> bool {
    exists|i: int| 0 <= i < sets.len() && #[trigger] duplicate_in_prefix(sets, i)
}

/// A content-addressed store of secret field-element sequences, looked up by
/// caller-chosen 32-byte commitments. Keys are unique; inserting an existing
/// key replaces its values.
#[derive(Clone, Debug)]
pub struct AdviceMap {
    entries: Vec<(Vec<u8>, Vec<Felt>)>,
}

impl AdviceMap {
    /// The stored keys, in insertion order.
    pub closed spec fn keys(self) -> Seq<Seq<u8>> {
        self.entries@.map_values(|e: (Vec<u8>, Vec<Felt>)| e.0@)
    }

    /// The stored value sequences, in insertion order.
    pub closed spec fn values(self) -> Seq<Seq<u64>> {
        self.entries@.map_values(|e: (Vec<u8>, Vec<Felt>)| e.1@.map_values(|f: Felt| f@))
    }

    /// The number of stored entries.
    pub open spec fn len_spec(self) -> int {
        self.keys().len() as int
    }

    /// Whether a value is stored under `key`.
    pub open spec fn contains_key_spec(self, key: Seq<u8>) -> bool {
        exists|i: int| 0 <= i < self.keys().len() && #[trigger] self.keys()[i] == key
    }

    /// Well-formedness: 32-byte keys, unique keys, valid field elements.
    pub open spec fn wf(self) -> bool {
        &&& (forall|i: int| 0 <= i < self.keys().len() ==> (#[trigger] self.keys()[i]).len() == 32)
        &&& (forall|i: int, j: int|
            0 <= i < j < self.keys().len() ==> #[trigger] self.keys()[i]
                != #[trigger] self.keys()[j])
        &&& (forall|i: int, k: int|
            0 <= i < self.values().len() && 0 <= k < self.values()[i].len()
                ==> #[trigger] self.values()[i][k] < MODULUS)
    }

    /// Returns an empty advice map.
    pub fn new() -> (r: AdviceMap)
        ensures
            r.wf(),
            r.len_spec() == 0,
    {
        AdviceMap { entries: Vec::new() }
    }

    /// Returns the number of stored entries.
    pub fn len(&self) -> (r: usize)
        ensures
            r == self.len_spec(),
    {
        self.entries.len()
    }

    /// Stores `values` under `key`, replacing the values previously stored
    /// under that key, if any.
    #[verifier::loop_isolation(false)]
    pub fn insert(&mut self, key: Vec<u8>, values: Vec<Felt>)
        requires
            old(self).wf(),
            key@.len() == 32,
            forall|k: int| 0 <= k < values@.len() ==> (#[trigger] values@[k])@ < MODULUS,
        ensures
            final(self).wf(),
            final(self).contains_key_spec(key@),
            if old(self).contains_key_spec(key@) {
                exists|i: int|
                    {
                        &&& 0 <= i < old(self).keys().len()
                        &&& #[trigger] old(self).keys()[i] == key@
                        &&& final(self).keys() == old(self).keys()
                        &&& final(self).values() == old(self).values().update(
                            i,
                            values@.map_values(|f: Felt| f@),
                        )
                    }
            } else {
                final(self).keys() == old(self).keys().push(key@) && final(self).values() == old(
                    self,
                ).values().push(values@.map_values(|f: Felt| f@))
            },
    {
        let ghost value_view = values@.map_values(|f: Felt| f@);
        let mut i: usize = 0;
        while i < self.entries.len()
            invariant
                self == old(self),
                i <= self.entries@.len(),
                forall|j: int| 0 <= j < i ==> #[trigger] self.keys()[j] != key@,
            decreases self.entries@.len() - i,
        {
            if self.entries[i].0 == key {
                proof {
                    assert(self.keys()[i as int] == self.entries@[i as int].0@);
                    assert(self.keys()[i as int] =~= key@);
                }
                let ghost old_entries = self.entries@;
                self.entries.set(i, (key, values));
                proof {
                    assert(final(self).keys() =~= old(self).keys());
                    assert(final(self).values() =~= old(self).values().update(
                        i as int,
                        value_view,
                    ));
                }
                return ;
            }
            proof {
                assert(self.keys()[i as int] == self.entries@[i as int].0@);
            }
            i = i + 1;
        }
        proof {
            assert(!old(self).contains_key_spec(key@));
        }
        self.entries.push((key, values));
        proof {
            assert(final(self).keys() =~= old(self).keys().push(key@));
            assert(final(self).values() =~= old(self).values().push(value_view));
            assert(final(self).keys().last() == key@);
        }
    }

    /// Returns the values stored under `key`, if any.
    pub fn get(&self, key: &Vec<u8>) -> (r: Option<&Vec<Felt>>)
        requires
            self.wf(),
        ensures
            match r {
                Some(v) => exists|i: int|
                    {
                        &&& 0 <= i < self.keys().len()
                        &&& #[trigger] self.keys()[i] == key@
                        &&& v@.map_values(|f: Felt| f@) == self.values()[i]
                    },
                None => !self.contains_key_spec(key@),
            },
    {
        let mut i: usize = 0;
        while i < self.entries.len()
            invariant
                i <= self.entries@.len(),
                forall|j: int| 0 <= j < i ==> #[trigger] self.keys()[j] != key@,
            decreases self.entries@.len() - i,
        {
            proof {
                assert(self.keys()[i as int] == self.entries@[i as int].0@);
                assert(self.values()[i as int] == self.entries@[i as int].1@.map_values(
                    |f: Felt| f@,
                ));
            }
            if &self.entries[i].0 == key {
                proof {
                    assert(self.keys()[i as int] =~= key@);
                }
                return Some(&self.entries[i].1);
            }
            i = i + 1;
        }
        None
    }
}

/// The advice sets supplied for one execution, keyed by the 32-byte encoding
/// of each set's committed root. No two stored sets share a root.
#[derive(Clone, Debug)]
pub struct AdviceSetMap {
    entries: Vec<AdviceSet>,
}

impl AdviceSetMap {
    /// The stored sets, in the order they were supplied.
    pub closed spec fn sets_seq(self) -> Seq<AdviceSet> {
        self.entries@
    }

    /// The number of stored sets.
    pub open spec fn len_spec(self) -> int {
        self.sets_seq().len() as int
    }

    /// Whether a set with the given root-key encoding is stored.
    pub open spec fn contains_key_spec(self, key: Seq<u8>) -> bool {
        exists|i: int|
            0 <= i < self.sets_seq().len() && word_bytes(
                (#[trigger] self.sets_seq()[i]).root_view(),
            ) == key
    }

    /// Well-formedness: every stored set is well-formed and no two share a
    /// root.
    pub open spec fn wf(self) -> bool {
        &&& (forall|i: int| 0 <= i < self.sets_seq().len() ==> (#[trigger] self.sets_seq()[i]).wf())
        &&& (forall|i: int, j: int|
            0 <= i < j < self.sets_seq().len() ==> (#[trigger] self.sets_seq()[i]).root_view() != (
            #[trigger] self.sets_seq()[j]).root_view())
    }

    /// Returns an empty mapping.
    pub fn new() -> (r: AdviceSetMap)
        ensures
            r.wf(),
            r.len_spec() == 0,
    {
        AdviceSetMap { entries: Vec::new() }
    }

    /// Returns the number of stored sets.
    pub fn len(&self) -> (r: usize)
        ensures
            r == self.len_spec(),
    {
        self.entries.len()
    }

    /// Whether a set whose root encodes to `key` is stored.
    pub fn contains_key(&self, key: &Vec<u8>) -> (r: bool)
        requires
            self.wf(),
        ensures
            r == self.contains_key_spec(key@),
    {
        let mut i: usize = 0;
        while i < self.entries.len()
            invariant
                i <= self.entries@.len(),
                self.wf(),
                forall|j: int|
                    0 <= j < i ==> word_bytes((#[trigger] self.sets_seq()[j]).root_view()) != key@,
            decreases self.entries@.len() - i,
        {
            proof {
                assert((self.sets_seq()[i as int]).wf());
            }
            let root = self.entries[i].root();
            let root_key = word_to_bytes(&root);
            if &root_key == key {
                proof {
                    assert(word_bytes(self.sets_seq()[i as int].root_view()) =~= key@);
                }
                return true;
            }
            proof {
                assert(word_bytes(self.sets_seq()[i as int].root_view()) != key@);
            }
            i = i + 1;
        }
        false
    }

    /// Returns the set stored under the given root-key encoding, if any.
    pub fn get(&self, key: &Vec<u8>) -> (r: Option<&AdviceSet>)
        requires
            self.wf(),
        ensures
            match r {
                Some(s) => exists|i: int|
                    {
                        &&& 0 <= i < self.sets_seq().len()
                        &&& #[trigger] self.sets_seq()[i] == *s
                        &&& word_bytes(s.root_view()) == key@
                    },
                None => !self.contains_key_spec(key@),
            },
    {
        let mut i: usize = 0;
        while i < self.entries.len()
            invariant
                i <= self.entries@.len(),
                self.wf(),
                forall|j: int|
                    0 <= j < i ==> word_bytes((#[trigger] self.sets_seq()[j]).root_view()) != key@,
            decreases self.entries@.len() - i,
        {
            proof {
                assert((self.sets_seq()[i as int]).wf());
            }
            let root = self.entries[i].root();
            let root_key = word_to_bytes(&root);
            if &root_key == key {
                proof {
                    assert(word_bytes(self.sets_seq()[i as int].root_view()) =~= key@);
                }
                return Some(&self.entries[i]);
            }
            proof {
                assert(word_bytes(self.sets_seq()[i as int].root_view()) != key@);
            }
            i = i + 1;
        }
        None
    }

    /// Appends a set whose root is not yet present.
    fn push_set(&mut self, set: AdviceSet)
        requires
            old(self).wf(),
            set.wf(),
            forall|i: int|
                0 <= i < old(self).sets_seq().len() ==> (#[trigger] old(
                    self,
                ).sets_seq()[i]).root_view() != set.root_view(),
        ensures
            final(self).wf(),
            final(self).sets_seq() == old(self).sets_seq().push(set),
    {
        self.entries.push(set);
        proof {
            assert(self.sets_seq() =~= old(self).sets_seq().push(set));
            assert forall|i: int| 0 <= i < self.sets_seq().len() implies (
            #[trigger] self.sets_seq()[i]).wf() by {
                if i < self.sets_seq().len() - 1 {
                    assert(self.sets_seq()[i] == old(self).sets_seq()[i]);
                }
            }
            assert forall|i: int, j: int| 0 <= i < j < self.sets_seq().len() implies (
            #[trigger] self.sets_seq()[i]).root_view() != (
            #[trigger] self.sets_seq()[j]).root_view() by {
                if j < self.sets_seq().len() - 1 {
                    assert(self.sets_seq()[i] == old(self).sets_seq()[i]);
                    assert(self.sets_seq()[j] == old(self).sets_seq()[j]);
                } else {
                    assert(self.sets_seq()[i] == old(self).sets_seq()[i]);
                    assert(self.sets_seq()[j] == set);
                }
            }
        }
    }
}

/// Input container for one program execution: public initial stack values
/// shared with the verifier, and secret advice inputs (a sequential tape, a
/// content-addressed map, and Merkle-authenticated advice sets) consumed by
/// the running program without being revealed.
#[derive(Clone, Debug)]
pub struct ProgramInputs {
    stack_init: Vec<Felt>,
    advice_tape: Vec<Felt>,
    advice_map: AdviceMap,
    advice_sets: AdviceSetMap,
}

impl ProgramInputs {
    /// The validated initial stack, in top-of-stack-first order.
    pub closed spec fn stack_view(self) -> Seq<u64> {
        self.stack_init@.map_values(|f: Felt| f@)
    }

    /// The validated advice tape, in the order it will be consumed.
    pub closed spec fn tape_view(self) -> Seq<u64> {
        self.advice_tape@.map_values(|f: Felt| f@)
    }

    /// The advice map as supplied at construction.
    pub closed spec fn map_spec(self) -> AdviceMap {
        self.advice_map
    }

    /// The root-keyed advice-set mapping.
    pub closed spec fn sets_spec(self) -> AdviceSetMap {
        self.advice_sets
    }

    /// The stored advice sets, in the order they were supplied.
    pub open spec fn sets_view(self) -> Seq<AdviceSet> {
        self.sets_spec().sets_seq()
    }

    /// Well-formedness: every stored element is a valid field element and
    /// both advice containers are well-formed.
    pub open spec fn wf(self) -> bool {
        &&& all_field_elements(self.stack_view())
        &&& all_field_elements(self.tape_view())
        &&& self.map_spec().wf()
        &&& self.sets_spec().wf()
    }

    /// Whether all four containers are empty.
    pub open spec fn is_empty_inputs(self) -> bool {
        &&& self.stack_view().len() == 0
        &&& self.tape_view().len() == 0
        &&& self.map_spec().len_spec() == 0
        &&& self.sets_view().len() == 0
    }

    /// Returns [`ProgramInputs`] instantiated with the given initial stack
    /// values, advice tape values, key-value advice map, and advice sets.
    ///
    /// The initial stack values are put onto the stack as if they were
    /// pushed one by one in the given order, so the last value of
    /// `stack_init` ends up at the top of the stack; there is no limit on
    /// their number. Validation stops at the first failure: a stack value
    /// not representable in the field, then a tape value not representable
    /// in the field, then a pair of advice sets sharing one root.
    #[verifier::loop_isolation(false)]
    pub fn with_advice_map(
        stack_init: &[u64],
        advice_tape: &[u64],
        advice_map: AdviceMap,
        advice_sets: Vec<AdviceSet>,
    ) -> (r: Result<ProgramInputs, InputError>)
        requires
            advice_map.wf(),
            forall|i: int| 0 <= i < advice_sets@.len() ==> (#[trigger] advice_sets@[i]).wf(),
        ensures
            (r is Ok) <==> (all_field_elements(stack_init@) && all_field_elements(advice_tape@)
                && !has_duplicate_root(advice_sets@)),
            r matches Ok(p) ==> {
                &&& p.wf()
                &&& p.stack_view() == stack_init@.reverse()
                &&& p.tape_view() == advice_tape@
                &&& p.map_spec() == advice_map
                &&& p.sets_view() == advice_sets@
            },
            r matches Err(e) ==> {
                ||| ({
                    &&& !all_field_elements(stack_init@)
                    &&& e matches InputError::NotFieldElement(v, t) && v
                        == stack_init@.reverse()[first_non_element(stack_init@.reverse())] && t@
                        == "initial stack value"@
                })
                ||| ({
                    &&& all_field_elements(stack_init@)
                    &&& !all_field_elements(advice_tape@)
                    &&& e matches InputError::NotFieldElement(v, t) && v
                        == advice_tape@[first_non_element(advice_tape@)] && t@
                        == "advice tape value"@
                })
                ||| ({
                    &&& all_field_elements(stack_init@)
                    &&& all_field_elements(advice_tape@)
                    &&& has_duplicate_root(advice_sets@)
                    &&& e matches InputError::DuplicateAdviceRoot(k) && (exists|i: int|
                        {
                            &&& 0 <= i < advice_sets@.len()
                            &&& #[trigger] duplicate_in_prefix(advice_sets@, i)
                            &&& (forall|i2: int|
                                0 <= i2 < i ==> !duplicate_in_prefix(advice_sets@, i2))
                            &&& k@ == word_bytes(advice_sets@[i].root_view())
                        })
                })
            },
    {
        let ghost rev = stack_init@.reverse();
        let n_stack = stack_init.len();
        let mut stack_elements: Vec<Felt> = Vec::new();
        let mut i: usize = 0;
        while i < n_stack
            invariant
                i <= n_stack,
                stack_elements@.len() == i,
                forall|j: int| 0 <= j < i ==> (#[trigger] stack_elements@[j])@ == rev[j],
                forall|j: int| 0 <= j < i ==> #[trigger] rev[j] < MODULUS,
            decreases n_stack - i,
        {
            let value = stack_init[n_stack - 1 - i];
            proof {
                assert(rev[i as int] == stack_init@[n_stack - 1 - i]);
            }
            if value >= MODULUS {
                proof {
                    lemma_first_non_element_at(rev, i as int);
                    assert(!all_field_elements(stack_init@));
                }
                return Err(InputError::NotFieldElement(value, "initial stack value"));
            }
            stack_elements.push(Felt::new(value));
            i = i + 1;
        }
        proof {
            assert forall|j: int| 0 <= j < stack_init@.len() implies #[trigger] stack_init@[j]
                < MODULUS by {
                assert(rev[n_stack - 1 - j] == stack_init@[j]);
            }
        }
        let n_tape = advice_tape.len();
        let mut tape_elements: Vec<Felt> = Vec::new();
        let mut i: usize = 0;
        while i < n_tape
            invariant
                i <= n_tape,
                tape_elements@.len() == i,
                forall|j: int| 0 <= j < i ==> (#[trigger] tape_elements@[j])@ == advice_tape@[j],
                forall|j: int| 0 <= j < i ==> #[trigger] advice_tape@[j] < MODULUS,
            decreases n_tape - i,
        {
            let value = advice_tape[i];
            if value >= MODULUS {
                proof {
                    lemma_first_non_element_at(advice_tape@, i as int);
                    assert(!all_field_elements(advice_tape@));
                }
                return Err(InputError::NotFieldElement(value, "advice tape value"));
            }
            tape_elements.push(Felt::new(value));
            i = i + 1;
        }
        let ghost all_sets = advice_sets@;
        let mut remaining = advice_sets;
        let n_sets = remaining.len();
        let mut sets_map = AdviceSetMap::new();
        let mut k: usize = 0;
        while k < n_sets
            invariant
                k <= n_sets,
                remaining@ == all_sets.skip(k as int),
                sets_map.wf(),
                sets_map.sets_seq() == all_sets.take(k as int),
                forall|i2: int| 0 <= i2 < k ==> !duplicate_in_prefix(all_sets, i2),
            decreases n_sets - k,
        {
            let set = remaining.remove(0);
            proof {
                assert(all_sets.skip(k as int)[0] == all_sets[k as int]);
                assert(remaining@ =~= all_sets.skip(k as int + 1));
                assert((all_sets[k as int]).wf());
            }
            let root = set.root();
            let key = word_to_bytes(&root);
            if sets_map.contains_key(&key) {
                proof {
                    let j = choose|j: int|
                        0 <= j < sets_map.sets_seq().len() && word_bytes(
                            (#[trigger] sets_map.sets_seq()[j]).root_view(),
                        ) == key@;
                    assert(sets_map.sets_seq()[j] == all_sets[j]);
                    crate::advice::lemma_root_view_len(all_sets[j]);
                    crate::advice::lemma_root_view_len(all_sets[k as int]);
                    lemma_word_bytes_injective(
                        all_sets[j].root_view(),
                        all_sets[k as int].root_view(),
                    );
                    assert(duplicate_in_prefix(all_sets, k as int));
                }
                return Err(InputError::DuplicateAdviceRoot(key));
            }
            proof {
                if duplicate_in_prefix(all_sets, k as int) {
                    let j = choose|j: int|
                        0 <= j < k && (#[trigger] all_sets[j]).root_view() == all_sets[
                            k as int
                        ].root_view();
                    assert(sets_map.sets_seq()[j] == all_sets[j]);
                    assert(word_bytes(sets_map.sets_seq()[j].root_view()) == key@);
                    assert(sets_map.contains_key_spec(key@));
                    assert(false);
                }
                assert forall|i2: int| 0 <= i2 < sets_map.sets_seq().len() implies (
                #[trigger] sets_map.sets_seq()[i2]).root_view() != set.root_view() by {
                    if sets_map.sets_seq()[i2].root_view() == set.root_view() {
                        assert(word_bytes(sets_map.sets_seq()[i2].root_view()) == key@);
                        assert(sets_map.contains_key_spec(key@));
                        assert(false);
                    }
                }
            }
            sets_map.push_set(set);
            proof {
                assert(sets_map.sets_seq() =~= all_sets.take(k as int + 1));
            }
            k = k + 1;
        }
        proof {
            assert(sets_map.sets_seq() =~= all_sets);
            if has_duplicate_root(all_sets) {
                let i = choose|i: int|
                    0 <= i < all_sets.len() && #[trigger] duplicate_in_prefix(all_sets, i);
                assert(false);
            }
        }
        let inputs = ProgramInputs {
            stack_init: stack_elements,
            advice_tape: tape_elements,
            advice_map,
            advice_sets: sets_map,
        };
        proof {
            assert(inputs.stack_view() =~= rev);
            assert(inputs.tape_view() =~= advice_tape@);
        }
        Ok(inputs)
    }

    /// Returns [`ProgramInputs`] instantiated with the given initial stack
    /// values, advice tape values, and advice sets, and an empty advice map.
    ///
    /// The initial stack values are put onto the stack as if they were
    /// pushed one by one in the given order, so the last value of
    /// `stack_init` ends up at the top of the stack; there is no limit on
    /// their number.
    pub fn new(stack_init: &[u64], advice_tape: &[u64], advice_sets: Vec<AdviceSet>) -> (r: Result<
        ProgramInputs,
        InputError,
    >)
        requires
            forall|i: int| 0 <= i < advice_sets@.len() ==> (#[trigger] advice_sets@[i]).wf(),
        ensures
            (r is Ok) <==> (all_field_elements(stack_init@) && all_field_elements(advice_tape@)
                && !has_duplicate_root(advice_sets@)),
            r matches Ok(p) ==> {
                &&& p.wf()
                &&& p.stack_view() == stack_init@.reverse()
                &&& p.tape_view() == advice_tape@
                &&& p.map_spec().len_spec() == 0
                &&& p.sets_view() == advice_sets@
            },
            r matches Err(e) ==> {
                ||| ({
                    &&& !all_field_elements(stack_init@)
                    &&& e matches InputError::NotFieldElement(v, t) && v
                        == stack_init@.reverse()[first_non_element(stack_init@.reverse())] && t@
                        == "initial stack value"@
                })
                ||| ({
                    &&& all_field_elements(stack_init@)
                    &&& !all_field_elements(advice_tape@)
                    &&& e matches InputError::NotFieldElement(v, t) && v
                        == advice_tape@[first_non_element(advice_tape@)] && t@
                        == "advice tape value"@
                })
                ||| ({
                    &&& all_field_elements(stack_init@)
                    &&& all_field_elements(advice_tape@)
                    &&& has_duplicate_root(advice_sets@)
                    &&& e matches InputError::DuplicateAdviceRoot(k) && (exists|i: int|
                        {
                            &&& 0 <= i < advice_sets@.len()
                            &&& #[trigger] duplicate_in_prefix(advice_sets@, i)
                            &&& (forall|i2: int|
                                0 <= i2 < i ==> !duplicate_in_prefix(advice_sets@, i2))
                            &&& k@ == word_bytes(advice_sets@[i].root_view())
                        })
                })
            },
    {
        Self::with_advice_map(stack_init, advice_tape, AdviceMap::new(), advice_sets)
    }

    /// Returns [`ProgramInputs`] initialized with stack inputs only; the
    /// advice tape, advice map and advice sets of the returned inputs are
    /// blank.
    ///
    /// The provided inputs are pushed onto the stack one after the other, so
    /// the first element of `stack_init` will be the deepest in the stack.
    pub fn from_stack_inputs(stack_init: &[u64]) -> (r: Result<ProgramInputs, InputError>)
        ensures
            (r is Ok) <==> all_field_elements(stack_init@),
            r matches Ok(p) ==> {
                &&& p.wf()
                &&& p.stack_view() == stack_init@.reverse()
                &&& p.tape_view().len() == 0
                &&& p.map_spec().len_spec() == 0
                &&& p.sets_view().len() == 0
            },
            r matches Err(e) ==> {
                &&& !all_field_elements(stack_init@)
                &&& e matches InputError::NotFieldElement(v, t) && v
                    == stack_init@.reverse()[first_non_element(stack_init@.reverse())] && t@
                    == "initial stack value"@
            },
    {
        let empty_tape: Vec<u64> = Vec::new();
        Self::new(stack_init, empty_tape.as_slice(), Vec::new())
    }

    /// Returns [`ProgramInputs`] with no input values: a valid bundle whose
    /// four containers are all empty.
    pub fn none() -> (r: ProgramInputs)
        ensures
            r.wf(),
            r.is_empty_inputs(),
    {
        ProgramInputs {
            stack_init: Vec::new(),
            advice_tape: Vec::new(),
            advice_map: AdviceMap::new(),
            advice_sets: AdviceSetMap::new(),
        }
    }

    /// Returns a read-only view of the validated initial stack values, in
    /// top-of-stack-first order.
    pub fn stack_init(&self) -> (r: &[Felt])
        ensures
            r@.map_values(|f: Felt| f@) == self.stack_view(),
    {
        self.stack_init.as_slice()
    }

    /// Returns a read-only view of the validated advice tape, in the order
    /// the execution engine consumes it.
    pub fn advice_tape(&self) -> (r: &[Felt])
        ensures
            r@.map_values(|f: Felt| f@) == self.tape_view(),
    {
        self.advice_tape.as_slice()
    }

    /// Decomposes these [`ProgramInputs`] into their raw components: the
    /// stack sequence, the tape sequence, the advice map, and the advice-set
    /// mapping, exactly as held by the bundle. The original value is
    /// consumed and can no longer be used afterward.
    pub fn into_parts(self) -> (r: (Vec<Felt>, Vec<Felt>, AdviceMap, AdviceSetMap))
        ensures
            r.0@.map_values(|f: Felt| f@) == self.stack_view(),
            r.1@.map_values(|f: Felt| f@) == self.tape_view(),
            r.2 == self.map_spec(),
            r.3 == self.sets_spec(),
    {
        let ProgramInputs { stack_init, advice_tape, advice_map, advice_sets } = self;
        (stack_init, advice_tape, advice_map, advice_sets)
    }
}

/// Any two empty input bundles are observationally equivalent: an empty
/// bundle built by `none()` agrees on every view with one built by
/// constructing from an empty stack, an empty tape, an empty advice map and
/// no advice sets.
pub proof fn lemma_empty_inputs_equivalent(a: ProgramInputs, b: ProgramInputs)
    requires
        a.is_empty_inputs(),
        b.is_empty_inputs(),
    ensures
        a.stack_view() == b.stack_view(),
        a.tape_view() == b.tape_view(),
        a.map_spec().keys() == b.map_spec().keys(),
        a.map_spec().values() == b.map_spec().values(),
        a.sets_view() == b.sets_view(),
{
    assert(a.stack_view() =~= b.stack_view());
    assert(a.tape_view() =~= b.tape_view());
    assert(a.map_spec().keys() =~= b.map_spec().keys());
    assert(a.map_spec().values() =~= b.map_spec().values());
    assert(a.sets_view() =~= b.sets_view());
}

/// Every advice set stored in a well-formed mapping is registered under its
/// own root key: looking up the 32-byte encoding of any stored set's root
/// succeeds.
pub proof fn lemma_sets_registered_by_root(m: AdviceSetMap, i: int)
    requires
        m.wf(),
        0 <= i < m.len_spec(),
    ensures
        m.contains_key_spec(word_bytes(m.sets_seq()[i].root_view())),
{
    assert(0 <= i < m.sets_seq().len() && word_bytes((#[trigger] m.sets_seq()[i]).root_view())
        == word_bytes(m.sets_seq()[i].root_view()));
}

} // verus!
