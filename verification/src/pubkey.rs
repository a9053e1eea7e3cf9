//! Account keys, their order, and ranges of them.
use vstd::prelude::*;

verus! {

/// The key under which a bucket keeps a list of slots: 32 bytes, ordered byte by byte.
#[derive(Clone, Copy, Debug)]
pub struct Pubkey {
    pub bytes: [u8; 32],
}

impl View for Pubkey {
    type V = Seq<u8>;

    open spec fn view(&self) -> Seq<u8> {
        self.bytes@
    }
}

impl PartialEq for Pubkey {
    fn eq(&self, other: &Self) -> (same: bool) {
        let mut i: usize = 0;
        while i < 32
            invariant
                i <= 32,
                forall|j: int| 0 <= j < i ==> self.bytes@[j] == other.bytes@[j],
            decreases 32 - i,
        {
            if self.bytes[i] != other.bytes[i] {
                return false;
            }
            i = i + 1;
        }
        assert(self@ =~= other@);
        true
    }
}

impl vstd::std_specs::cmp::PartialEqSpecImpl for Pubkey {
    open spec fn obeys_eq_spec() -> bool {
        true
    }

    open spec fn eq_spec(&self, other: &Self) -> bool {
        self@ == other@
    }
}

impl Eq for Pubkey {

}

/// Whether `a` comes before `b`: at the first place where they differ, `a` has the smaller byte.
pub open spec fn key_before(a: Seq<u8>, b: Seq<u8>) -> bool {
    exists|i: int|
        #![trigger a[i]]
        0 <= i < a.len() && i < b.len() && a[i] < b[i] && a.take(i) == b.take(i)
}

impl Pubkey {
    pub fn new_from_array(bytes: [u8; 32]) -> (key: Self)
        ensures
            key.bytes == bytes,
    {
        Pubkey { bytes }
    }

    /// Whether `self` comes before `other` in the order of keys.
    pub fn is_before(&self, other: &Self) -> (before: bool)
        ensures
            before == key_before(self@, other@),
    {
        let mut i: usize = 0;
        while i < 32
            invariant
                i <= 32,
                self@.take(i as int) == other@.take(i as int),
            decreases 32 - i,
        {
            if self.bytes[i] != other.bytes[i] {
                proof {
                    let (a, b) = (self@, other@);
                    if a[i as int] < b[i as int] {
                        assert(key_before(a, b));
                    } else if key_before(a, b) {
                        let j = choose|j: int|
                            #![trigger a[j]]
                            0 <= j < a.len() && j < b.len() && a[j] < b[j] && a.take(j) == b.take(j);
                        if j < i {
                            assert(a.take(i as int)[j] == b.take(i as int)[j]);
                        } else if j > i {
                            assert(a.take(j)[i as int] == b.take(j)[i as int]);
                        }
                    }
                }
                return self.bytes[i] < other.bytes[i];
            }
            assert(self@.take(i + 1) =~= self@.take(i as int).push(self@[i as int]));
            assert(other@.take(i + 1) =~= other@.take(i as int).push(other@[i as int]));
            i = i + 1;
        }
        proof {
            let (a, b) = (self@, other@);
            assert forall|j: int| #![trigger a[j]] 0 <= j < 32 implies a[j] == b[j] by {
                assert(a.take(32)[j] == b.take(32)[j]);
            }
        }
        false
    }
}

/// One end of a range of keys.
#[derive(Clone, Copy, Debug)]
pub enum KeyBound {
    Included(Pubkey),
    Excluded(Pubkey),
    Unbounded,
}

/// A range of keys.
#[derive(Clone, Copy, Debug)]
pub struct KeyRange {
    pub start: KeyBound,
    pub end: KeyBound,
}

impl KeyRange {
    /// Whether the range holds `key`.
    pub open spec fn holds(self, key: Seq<u8>) -> bool {
        &&& match self.start {
            KeyBound::Included(start) => !key_before(key, start@),
            KeyBound::Excluded(start) => key_before(start@, key),
            KeyBound::Unbounded => true,
        }
        &&& match self.end {
            KeyBound::Included(end) => !key_before(end@, key),
            KeyBound::Excluded(end) => key_before(key, end@),
            KeyBound::Unbounded => true,
        }
    }

    /// Whether the range holds `key`.
    pub fn contains(&self, key: &Pubkey) -> (inside: bool)
        ensures
            inside == self.holds(key@),
            self.start matches KeyBound::Included(start) ==> inside ==> !key_before(key@, start@),
            self.start matches KeyBound::Excluded(start) ==> inside ==> key_before(start@, key@),
            self.end matches KeyBound::Included(end) ==> inside ==> !key_before(end@, key@),
            self.end matches KeyBound::Excluded(end) ==> inside ==> key_before(key@, end@),
            !inside ==> {
                ||| self.start matches KeyBound::Included(start) && key_before(key@, start@)
                ||| self.start matches KeyBound::Excluded(start) && !key_before(start@, key@)
                ||| self.end matches KeyBound::Included(end) && key_before(end@, key@)
                ||| self.end matches KeyBound::Excluded(end) && !key_before(key@, end@)
            },
    {
        let after_start = match &self.start {
            KeyBound::Included(start) => !key.is_before(start),
            KeyBound::Excluded(start) => start.is_before(key),
            KeyBound::Unbounded => true,
        };
        let before_end = match &self.end {
            KeyBound::Included(end) => !end.is_before(key),
            KeyBound::Excluded(end) => key.is_before(end),
            KeyBound::Unbounded => true,
        };
        after_start && before_end
    }
}

} // verus!
