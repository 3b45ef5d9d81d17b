//! A name-keyed store of timeseries.

use crate::errors::{RSCMError, RSCMResult};
use crate::timeseries::Timeseries;
use vstd::prelude::*;
use vstd::string::StringExecFns;

verus! {

/// How a variable's series is filled.
#[derive(Clone, Copy, PartialEq, Eq, Structural, Debug)]
pub enum VariableType {
    /// Supplied before the run and queried by interpolation.
    Exogenous,
    /// Produced by components step by step and queried by latest value.
    Endogenous,
}

/// One named entry of the store.
#[derive(Debug)]
pub struct TimeseriesItem {
    pub timeseries: Timeseries,
    pub name: String,
    pub variable_type: VariableType,
}

/// Some entry carries this name.
pub open spec fn contains_name(items: Seq<TimeseriesItem>, name: Seq<char>) -> bool {
    exists|i: int| 0 <= i < items.len() && (#[trigger] items[i]).name@ == name
}

/// The position of the entry carrying `name`; meaningful only when one
/// exists, and then unique because names are.
pub open spec fn index_of_name(items: Seq<TimeseriesItem>, name: Seq<char>) -> int {
    choose|i: int| 0 <= i < items.len() && (#[trigger] items[i]).name@ == name
}

/// No two entries share a name.
pub open spec fn names_unique(items: Seq<TimeseriesItem>) -> bool {
    forall|i: int, j: int|
        #![trigger items[i], items[j]]
        0 <= i < j < items.len() ==> items[i].name@ != items[j].name@
}

/// A collection of timeseries keyed by variable name, giving the whole
/// model access to its data.
#[derive(Debug)]
pub struct TimeseriesCollection {
    pub timeseries: Vec<TimeseriesItem>,
}

impl TimeseriesCollection {
    /// Valid entries under distinct names.
    pub open spec fn wf(&self) -> bool {
        &&& names_unique(self.timeseries@)
        &&& forall|i: int|
            0 <= i < self.timeseries@.len() ==> (#[trigger] self.timeseries@[i]).timeseries.wf()
    }

    pub fn new() -> (r: TimeseriesCollection)
        ensures
            r.wf(),
            r.timeseries@.len() == 0,
    {
        TimeseriesCollection { timeseries: Vec::new() }
    }

    /// The position of the entry named `name`, or absent.
    fn position_of(&self, name: &String) -> (r: Option<usize>)
        ensures
            r is Some <==> contains_name(self.timeseries@, name@),
            r matches Some(i) ==> i < self.timeseries@.len() && self.timeseries@[i as int].name@
                == name@,
            r is None ==> forall|i: int|
                0 <= i < self.timeseries@.len() ==> (#[trigger] self.timeseries@[i]).name@
                    != name@,
    {
        let n = self.timeseries.len();
        let mut i: usize = 0;
        while i < n
            invariant
                i <= n,
                n == self.timeseries@.len(),
                forall|j: int|
                    0 <= j < i ==> (#[trigger] self.timeseries@[j]).name@ != name@,
            decreases n - i,
        {
            if self.timeseries[i].name.eq(name) {
                return Some(i);
            }
            i = i + 1;
        }
        None
    }

    /// Adds a timeseries under a new name; a taken name is refused with
    /// `DuplicateTimeseries`.
    pub fn add_timeseries(
        &mut self,
        name: String,
        timeseries: Timeseries,
        variable_type: VariableType,
    ) -> (r: RSCMResult<()>)
        requires
            old(self).wf(),
            timeseries.wf(),
        ensures
            final(self).wf(),
            r is Ok <==> !contains_name(old(self).timeseries@, name@),
            r is Ok ==> final(self).timeseries@ == old(self).timeseries@.push(
                TimeseriesItem { timeseries, name, variable_type },
            ),
            r matches Err(e) ==> *final(self) == *old(self) && e == (RSCMError::DuplicateTimeseries {
                name,
            }),
    {
        let found = self.position_of(&name);
        match found {
            Some(_) => Err(RSCMError::DuplicateTimeseries { name }),
            None => {
                self.timeseries.push(TimeseriesItem { timeseries, name, variable_type });
                proof {
                    let items = self.timeseries@;
                    assert forall|i: int, j: int|
                        #![trigger items[i], items[j]]
                        0 <= i < j < items.len() implies items[i].name@ != items[j].name@ by {
                        if j == items.len() - 1 {
                            assert(old(self).timeseries@[i].name@ != items[j].name@);
                        }
                    }
                }
                Ok(())
            },
        }
    }

    /// The entry named `name`, or absent.
    pub fn get_by_name(&self, name: &str) -> (r: Option<&TimeseriesItem>)
        requires
            self.wf(),
        ensures
            r is Some <==> contains_name(self.timeseries@, name@),
            r matches Some(item) ==> *item == self.timeseries@[index_of_name(
                self.timeseries@,
                name@,
            )] && item.name@ == name@,
    {
        let owned = String::from_str(name);
        let found = self.position_of(&owned);
        match found {
            Some(i) => {
                let item = &self.timeseries[i];
                proof {
                    lemma_found_is_index_of(self.timeseries@, name@, i as int);
                }
                Some(item)
            },
            None => None,
        }
    }

    /// The series named `name`, or absent.
    pub fn get_timeseries_by_name(&self, name: &str) -> (r: Option<&Timeseries>)
        requires
            self.wf(),
        ensures
            r is Some <==> contains_name(self.timeseries@, name@),
            r matches Some(ts) ==> *ts == self.timeseries@[index_of_name(
                self.timeseries@,
                name@,
            )].timeseries,
    {
        match self.get_by_name(name) {
            Some(item) => Some(&item.timeseries),
            None => None,
        }
    }

    /// Mutable access to the series named `name`, or absent; used to
    /// write a step's outputs back.  Only the series behind the returned
    /// reference can change.
    pub fn get_timeseries_by_name_mut(&mut self, name: &str) -> (r: Option<&mut Timeseries>)
        requires
            old(self).wf(),
        ensures
            r is Some <==> contains_name(old(self).timeseries@, name@),
            r is None ==> *final(self) == *old(self),
            r matches Some(ts) ==> ({
                let i = index_of_name(old(self).timeseries@, name@);
                &&& *ts == old(self).timeseries@[i].timeseries
                &&& final(self).timeseries@ == old(self).timeseries@.update(
                    i,
                    TimeseriesItem {
                        timeseries: *final(ts),
                        name: old(self).timeseries@[i].name,
                        variable_type: old(self).timeseries@[i].variable_type,
                    },
                )
            }),
    {
        let owned = String::from_str(name);
        let found = self.position_of(&owned);
        match found {
            Some(i) => {
                proof {
                    lemma_found_is_index_of(self.timeseries@, name@, i as int);
                }
                let item = &mut self.timeseries[i];
                Some(&mut item.timeseries)
            },
            None => None,
        }
    }

    /// Adds the entry, replacing an existing entry of the same name.
    pub fn upsert(&mut self, item: TimeseriesItem)
        requires
            old(self).wf(),
            item.timeseries.wf(),
        ensures
            final(self).wf(),
            final(self).timeseries@.len() == old(self).timeseries@.len() + (if contains_name(
                old(self).timeseries@,
                item.name@,
            ) {
                0int
            } else {
                1int
            }),
            forall|j: int|
                0 <= j < old(self).timeseries@.len() && (#[trigger] old(self).timeseries@[j]).name@
                    != item.name@ ==> final(self).timeseries@[j] == old(self).timeseries@[j],
            contains_name(final(self).timeseries@, item.name@),
            final(self).timeseries@[index_of_name(final(self).timeseries@, item.name@)] == item,
    {
        let ghost old_items = self.timeseries@;
        let found = self.position_of(&item.name);
        match found {
            Some(i) => {
                proof {
                    lemma_found_is_index_of(old_items, item.name@, i as int);
                }
                self.timeseries.set(i, item);
                proof {
                    assert forall|a: int, b: int|
                        #![trigger self.timeseries@[a], self.timeseries@[b]]
                        0 <= a < b < self.timeseries@.len() implies self.timeseries@[a].name@
                        != self.timeseries@[b].name@ by {
                        assert(old_items[a].name@ != old_items[b].name@);
                    }
                    lemma_found_is_index_of(self.timeseries@, item.name@, i as int);
                }
            },
            None => {
                self.timeseries.push(item);
                proof {
                    assert forall|a: int, b: int|
                        #![trigger self.timeseries@[a], self.timeseries@[b]]
                        0 <= a < b < self.timeseries@.len() implies self.timeseries@[a].name@
                        != self.timeseries@[b].name@ by {
                        if b < self.timeseries@.len() - 1 {
                            assert(old_items[a].name@ != old_items[b].name@);
                        } else {
                            assert(old_items[a].name@ != item.name@);
                        }
                    }
                    lemma_found_is_index_of(
                        self.timeseries@,
                        item.name@,
                        self.timeseries@.len() - 1,
                    );
                }
            },
        }
    }

    /// The entries, for traversal.
    pub fn iter(&self) -> (r: &Vec<TimeseriesItem>)
        ensures
            r@ == self.timeseries@,
    {
        &self.timeseries
    }

    /// The entries, consumed.
    pub fn into_iter(self) -> (r: Vec<TimeseriesItem>)
        ensures
            r@ == self.timeseries@,
    {
        self.timeseries
    }
}

/// With unique names, a position whose entry carries `name` is the
/// chosen `index_of_name`.
proof fn lemma_found_is_index_of(items: Seq<TimeseriesItem>, name: Seq<char>, i: int)
    requires
        names_unique(items),
        0 <= i < items.len(),
        items[i].name@ == name,
    ensures
        index_of_name(items, name) == i,
{
    assert(contains_name(items, name));
    let j = index_of_name(items, name);
    assert(0 <= j < items.len() && items[j].name@ == name);
    if j != i {
        assert(items[i].name@ != items[j].name@);
    }
}

} // verus!
