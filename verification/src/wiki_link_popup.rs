//! Selection state of the wiki-link autocomplete popup.
use vstd::prelude::*;
use vstd::string::*;
use crate::path::strings_bytes;

verus! {

/// What the user did with the popup.
#[derive(Debug, PartialEq, Eq)]
pub enum WikiLinkAction {
    /// The user confirmed the given note stem.
    Selected(String),
    /// The user dismissed the popup.
    Dismissed,
}

/// The index after `s` in a list of `n` items, wrapping to the first.
pub open spec fn next_index(s: int, n: int) -> int {
    if s + 1 < n {
        s + 1
    } else {
        0
    }
}

/// The index before `s` in a list of `n` items, wrapping to the last.
pub open spec fn prev_index(s: int, n: int) -> int {
    if s == 0 {
        n - 1
    } else {
        s - 1
    }
}

/// Persistent autocomplete popup state: the items and the selected index.
#[derive(Debug)]
pub struct WikiLinkPopup {
    items: Vec<String>,
    selected: usize,
}

impl WikiLinkPopup {
    #[verifier::type_invariant]
    spec fn inv(self) -> bool {
        self.items@.len() == 0 || self.selected < self.items@.len()
    }

    /// The items, as bytes.
    pub closed spec fn items_v(&self) -> Seq<Seq<u8>> {
        strings_bytes(self.items@)
    }

    /// The selected index.
    pub closed spec fn sel(&self) -> int {
        self.selected as int
    }

    /// Replaces the items; the selection goes back to the first item only
    /// when the list changes.
    pub fn set_items(&mut self, items: Vec<String>)
        ensures
            final(self).items_v() == strings_bytes(items@),
            final(self).sel() == if strings_bytes(items@) == old(self).items_v() {
                old(self).sel()
            } else {
                0
            },
    {
        proof {
            use_type_invariant(&*self);
        }
        let mut same = items.len() == self.items.len();
        let mut i: usize = 0;
        assert(strings_bytes(items@).len() == items@.len());
        assert(strings_bytes(self.items@).len() == self.items@.len());
        while same && i < items.len()
            invariant
                0 <= i <= items@.len(),
                same ==> items@.len() == self.items@.len(),
                same ==> forall|j: int| 0 <= j < i ==> strings_bytes(items@)[j] == strings_bytes(self.items@)[j],
                !same ==> strings_bytes(items@) != strings_bytes(self.items@),
            decreases items@.len() - i,
        {
            if !crate::text::str_eq(items[i].as_str(), self.items[i].as_str()) {
                assert(strings_bytes(items@)[i as int] != strings_bytes(self.items@)[i as int]);
                same = false;
            }
            i = i + 1;
        }
        if same {
            assert(strings_bytes(items@) =~= strings_bytes(self.items@));
        } else {
            *self = WikiLinkPopup { items, selected: 0 };
        }
    }

    /// Moves the selection to the next item, wrapping from last to first.
    pub fn select_next(&mut self)
        ensures
            final(self).items_v() == old(self).items_v(),
            final(self).sel() == if old(self).items_v().len() == 0 {
                old(self).sel()
            } else {
                next_index(old(self).sel(), old(self).items_v().len() as int)
            },
    {
        proof {
            use_type_invariant(&*self);
        }
        let n = self.items.len();
        if n > 0 {
            if self.selected + 1 < n {
                self.selected = self.selected + 1;
            } else {
                self.selected = 0;
            }
        }
    }

    /// Moves the selection to the previous item, wrapping from first to last.
    pub fn select_prev(&mut self)
        ensures
            final(self).items_v() == old(self).items_v(),
            final(self).sel() == if old(self).items_v().len() == 0 {
                old(self).sel()
            } else {
                prev_index(old(self).sel(), old(self).items_v().len() as int)
            },
    {
        proof {
            use_type_invariant(&*self);
        }
        let n = self.items.len();
        if n > 0 {
            if self.selected == 0 {
                self.selected = n - 1;
            } else {
                self.selected = self.selected - 1;
            }
        }
    }

    /// Returns the highlighted stem, or `None` when the list is empty.
    pub fn selected_item(&self) -> (r: Option<&str>)
        ensures
            match r {
                Some(s) => self.items_v().len() > 0 && s.spec_bytes() == self.items_v()[self.sel()],
                None => self.items_v().len() == 0,
            },
    {
        proof {
            use_type_invariant(self);
        }
        if self.selected < self.items.len() {
            Some(self.items[self.selected].as_str())
        } else {
            None
        }
    }

    /// Returns the selected index.
    pub fn selected(&self) -> (r: usize)
        ensures
            r as int == self.sel(),
            self.items_v().len() == 0 || r < self.items_v().len(),
    {
        proof {
            use_type_invariant(self);
        }
        self.selected
    }

    /// The offered stems, in order.
    pub fn items(&self) -> (r: &[String])
        ensures
            strings_bytes(r@) == self.items_v(),
    {
        self.items.as_slice()
    }

    /// Whether the popup has no items.
    pub fn is_empty(&self) -> (r: bool)
        ensures
            r == (self.items_v().len() == 0),
    {
        self.items.len() == 0
    }
}

impl Default for WikiLinkPopup {
    fn default() -> (r: WikiLinkPopup)
        ensures
            r.items_v().len() == 0,
            r.sel() == 0,
    {
        WikiLinkPopup { items: Vec::new(), selected: 0 }
    }
}

/// Moving to the next item and back restores the selection, and so does
/// moving back and then forward.
pub proof fn lemma_next_prev_roundtrip(s: int, n: int)
    requires
        0 <= s < n,
    ensures
        prev_index(next_index(s, n), n) == s,
        next_index(prev_index(s, n), n) == s,
        0 <= next_index(s, n) < n,
        0 <= prev_index(s, n) < n,
{
}

/// Moving to the next item `n` times returns to where it started.
pub open spec fn next_times(s: int, n: int, k: nat) -> int
    decreases k,
{
    if k == 0 {
        s
    } else {
        next_index(next_times(s, n, (k - 1) as nat), n)
    }
}

pub proof fn lemma_next_cycle(s: int, n: int)
    requires
        0 <= s < n,
    ensures
        next_times(s, n, n as nat) == s,
{
    assert forall|k: nat| k <= n - s implies #[trigger] next_times(s, n, k) == if s + k < n {
        s + k
    } else {
        0
    } by {
        lemma_next_times_prefix(s, n, k);
    }
    assert(next_times(s, n, (n - s) as nat) == 0);
    lemma_next_times_from_zero(s, n, (n - s) as nat, s as nat);
}

proof fn lemma_next_times_prefix(s: int, n: int, k: nat)
    requires
        0 <= s < n,
        k <= n - s,
    ensures
        next_times(s, n, k) == if s + k < n {
            s + k
        } else {
            0
        },
    decreases k,
{
    if k > 0 {
        lemma_next_times_prefix(s, n, (k - 1) as nat);
    }
}

proof fn lemma_next_times_from_zero(s: int, n: int, j: nat, k: nat)
    requires
        0 <= s < n,
        next_times(s, n, j) == 0,
        k <= s,
    ensures
        next_times(s, n, j + k) == k,
    decreases k,
{
    if k > 0 {
        lemma_next_times_from_zero(s, n, j, (k - 1) as nat);
        assert(next_times(s, n, j + k) == next_index(next_times(s, n, (j + k - 1) as nat), n));
    }
}

} // verus!
