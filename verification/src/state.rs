//! A session's stores, the one that is selected, and the autoflush policy.

use vstd::prelude::*;
use vstd::slice::slice_subrange;
use crate::store::{file_in, file_path, Store, StoreView};
use crate::update::Update;

verus! {

/// A session's settings.
#[derive(Clone)]
pub struct Settings {
    pub autoflush: bool,
    pub dtf_folder: String,
    pub flush_interval: u32,
}

/// What the settings look like to a contract.
pub struct SettingsView {
    pub autoflush: bool,
    pub dtf_folder: Seq<char>,
    pub flush_interval: u32,
}

impl View for Settings {
    type V = SettingsView;

    open spec fn view(&self) -> SettingsView {
        SettingsView {
            autoflush: self.autoflush,
            dtf_folder: self.dtf_folder@,
            flush_interval: self.flush_interval,
        }
    }
}

impl Settings {
    /// Puts the settings together, unless the flush interval is zero: no
    /// count is a multiple of zero records.
    pub fn new(autoflush: bool, dtf_folder: String, flush_interval: u32) -> (r: Option<Settings>)
        ensures
            flush_interval == 0 ==> r is None,
            flush_interval > 0 ==> r is Some && r->0@ == (SettingsView {
                autoflush,
                dtf_folder: dtf_folder@,
                flush_interval,
            }),
    {
        if flush_interval == 0 {
            None
        } else {
            Some(Settings { autoflush, dtf_folder, flush_interval })
        }
    }
}

/// The state of one session. No two stores have the same name, and
/// `current_store_name` names one of them.
pub struct State {
    pub is_adding: bool,
    pub store: Vec<Store>,
    pub current_store_name: String,
    pub settings: Settings,
}

/// What a session looks like to a contract.
pub struct StateView {
    pub is_adding: bool,
    pub stores: Seq<StoreView>,
    pub current: Seq<char>,
    pub settings: SettingsView,
}

impl View for State {
    type V = StateView;

    open spec fn view(&self) -> StateView {
        StateView {
            is_adding: self.is_adding,
            stores: self.store@.map_values(|s: Store| s@),
            current: self.current_store_name@,
            settings: self.settings@,
        }
    }
}

/// The smaller of two integers.
pub open spec fn least(a: int, b: int) -> int {
    if a <= b {
        a
    } else {
        b
    }
}

impl StateView {
    /// Whether the session has a store called `name`.
    pub open spec fn has_store(self, name: Seq<char>) -> bool {
        exists|i: int| 0 <= i < self.stores.len() && (#[trigger] self.stores[i]).name == name
    }

    /// Whether no two stores share a name.
    pub open spec fn names_distinct(self) -> bool {
        forall|i: int, j: int|
            0 <= i < j < self.stores.len() ==> (#[trigger] self.stores[i]).name != (
            #[trigger] self.stores[j]).name
    }

    /// Whether names are distinct and the selected store exists.
    pub open spec fn wf(self) -> bool {
        self.names_distinct() && self.has_store(self.current)
    }

    /// The store called `name`.
    pub open spec fn store_named(self, name: Seq<char>) -> StoreView {
        let i = choose|i: int|
            0 <= i < self.stores.len() && (#[trigger] self.stores[i]).name == name;
        self.stores[i]
    }

    /// The selected store.
    pub open spec fn current_store(self) -> StoreView {
        self.store_named(self.current)
    }

    /// The session with `u` added to the store called `name`.
    pub open spec fn with_added(self, name: Seq<char>, u: Update) -> StateView {
        StateView {
            stores: self.stores.map_values(
                |s: StoreView|
                    if s.name == name {
                        s.added(u)
                    } else {
                        s
                    },
            ),
            ..self
        }
    }

    /// The session with the selected store's count set to `header_size`.
    pub open spec fn with_current_resized(self, header_size: u64) -> StateView {
        StateView {
            stores: self.stores.map_values(
                |s: StoreView|
                    if s.name == self.current {
                        s.resized(header_size)
                    } else {
                        s
                    },
            ),
            ..self
        }
    }

    /// Whether the autoflush is due: the policy is on, and the selected
    /// store's count is a positive multiple of the flush interval.
    pub open spec fn autoflush_due(self) -> bool {
        &&& self.settings.autoflush
        &&& self.current_store().size > 0
        &&& self.current_store().size as int % self.settings.flush_interval as int == 0
    }

    /// The records that a request for `count` of them is answered with.
    /// None where the selected store is empty or counts fewer than `count`;
    /// all resident records for the count -1; else the first `count`
    /// resident records, or all of them if they are fewer.
    pub open spec fn selection(self, count: int) -> Option<Seq<Update>> {
        let s = self.current_store();
        if s.size == 0 || s.size < count {
            None
        } else if count == -1 {
            Some(s.records)
        } else {
            Some(s.records.take(least(count, s.records.len() as int)))
        }
    }
}

impl State {
    fn find(&self, name: &str) -> (r: Option<usize>)
        ensures
            match r {
                Some(i) => i < self.store@.len() && self.store@[i as int].name@ == name@,
                None => !self@.has_store(name@),
            },
    {
        let wanted = name.to_owned();
        let n = self.store.len();
        let mut i: usize = 0;
        while i < n
            invariant
                n == self.store@.len(),
                i <= n,
                wanted@ == name@,
                forall|j: int| 0 <= j < i ==> (#[trigger] self@.stores[j]).name != name@,
            decreases n - i,
        {
            if self.store[i].name == wanted {
                return Some(i);
            }
            assert(self@.stores[i as int].name == self.store@[i as int].name@);
            i += 1;
        }
        None
    }

    fn add_at(&mut self, i: usize, up: Update)
        requires
            i < old(self).store@.len(),
            old(self)@.names_distinct(),
            old(self).store@[i as int].size < u64::MAX,
        ensures
            final(self)@ == old(self)@.with_added(old(self)@.stores[i as int].name, up),
            final(self)@.names_distinct(),
            final(self)@.store_named(old(self)@.stores[i as int].name) == old(self)@.stores[i as int].added(
                up,
            ),
            forall|name: Seq<char>| final(self)@.has_store(name) == old(self)@.has_store(name),
    {
        self.store[i].add(up);
        proof {
            lemma_replaced(old(self)@, self@, i as int);
            assert(self@.stores =~= old(self)@.with_added(old(self)@.stores[i as int].name, up).stores);
        }
    }

    /// The selected store.
    pub fn current(&self) -> (s: &Store)
        requires
            self@.wf(),
        ensures
            s@ == self@.current_store(),
    {
        let found = self.find(self.current_store_name.as_str());
        let i = found.unwrap();
        assert(self@.stores[i as int].name == self@.current);
        &self.store[i]
    }

    /// Adds `up` to the store called `store_name`, if there is one, and
    /// says so; else changes nothing.
    pub fn insert(&mut self, up: Update, store_name: &str) -> (r: Option<bool>)
        requires
            old(self)@.names_distinct(),
            old(self)@.has_store(store_name@) ==> old(self)@.store_named(store_name@).size
                < u64::MAX,
        ensures
            old(self)@.has_store(store_name@) ==> r == Some(true) && final(self)@ == old(
                self,
            )@.with_added(store_name@, up) && final(self)@.store_named(store_name@) == old(
                self,
            )@.store_named(store_name@).added(up),
            !old(self)@.has_store(store_name@) ==> r is None && final(self)@ == old(self)@,
            final(self)@.names_distinct(),
            forall|name: Seq<char>| final(self)@.has_store(name) == old(self)@.has_store(name),
    {
        match self.find(store_name) {
            Some(i) => {
                assert(self@.stores[i as int].name == store_name@);
                self.add_at(i, up);
                Some(true)
            },
            None => None,
        }
    }

    /// Adds `up` to the selected store.
    pub fn add(&mut self, up: Update)
        requires
            old(self)@.wf(),
            old(self)@.current_store().size < u64::MAX,
        ensures
            final(self)@ == old(self)@.with_added(old(self)@.current, up),
            final(self)@.wf(),
            final(self)@.current_store() == old(self)@.current_store().added(up),
    {
        let found = self.find(self.current_store_name.as_str());
        let i = found.unwrap();
        assert(self@.stores[i as int].name == self@.current);
        self.add_at(i, up);
    }

    /// Tells whether the selected store is to be flushed now. If so, the
    /// caller flushes it, reads the record count back from the file's
    /// header and hands it to [`State::finish_autoflush`].
    pub fn autoflush(&self) -> (due: bool)
        requires
            self@.wf(),
            self.settings.autoflush ==> self.settings.flush_interval > 0,
        ensures
            due == self@.autoflush_due(),
    {
        if !self.settings.autoflush {
            return false;
        }
        let store = self.current();
        store.size > 0 && store.size % (self.settings.flush_interval as u64) == 0
    }

    /// Sets the selected store's count to `header_size`, the record count
    /// in the header of its file after the flush.
    pub fn finish_autoflush(&mut self, header_size: u64)
        requires
            old(self)@.wf(),
        ensures
            final(self)@ == old(self)@.with_current_resized(header_size),
            final(self)@.wf(),
            final(self)@.current_store() == old(self)@.current_store().resized(header_size),
    {
        let found = self.find(self.current_store_name.as_str());
        let i = found.unwrap();
        assert(self@.stores[i as int].name == self@.current);
        self.store[i].load_size_from_file(header_size);
        proof {
            lemma_replaced(old(self)@, self@, i as int);
            assert(self@.stores =~= old(self)@.with_current_resized(header_size).stores);
        }
    }

    /// Picks the resident records of the selected store that answer a
    /// request for `count` records; the caller serialises them. The count
    /// -1 asks for all of them.
    pub fn get(&self, count: i32) -> (r: Option<&[Update]>)
        requires
            self@.wf(),
            count >= -1 || self@.current_store().size == 0,
        ensures
            match r {
                Some(records) => self@.selection(count as int) == Some(records@),
                None => self@.selection(count as int) is None,
            },
    {
        let store = self.current();
        if store.size == 0 || (count > 0 && store.size < count as u64) {
            None
        } else if count == -1 {
            Some(store.v.as_slice())
        } else {
            let wanted = count as usize;
            let k = if wanted <= store.v.len() {
                wanted
            } else {
                store.v.len()
            };
            assert(store.v@.subrange(0, k as int) =~= store.v@.take(k as int));
            Some(slice_subrange(store.v.as_slice(), 0, k))
        }
    }
}

proof fn lemma_replaced(before: StateView, after: StateView, i: int)
    requires
        before.names_distinct(),
        0 <= i < before.stores.len(),
        after.stores.len() == before.stores.len(),
        after.stores[i].name == before.stores[i].name,
        forall|j: int| 0 <= j < before.stores.len() && j != i ==> after.stores[j] == before.stores[j],
    ensures
        after.names_distinct(),
        forall|name: Seq<char>| after.has_store(name) == before.has_store(name),
        after.store_named(before.stores[i].name) == after.stores[i],
        before.store_named(before.stores[i].name) == before.stores[i],
{
    assert forall|j: int, k: int| 0 <= j < k < after.stores.len() implies (
    #[trigger] after.stores[j]).name != (#[trigger] after.stores[k]).name by {
        assert(after.stores[j].name == before.stores[j].name);
        assert(after.stores[k].name == before.stores[k].name);
    }
    assert forall|name: Seq<char>| after.has_store(name) == before.has_store(name) by {
        if after.has_store(name) {
            let j = choose|j: int|
                0 <= j < after.stores.len() && (#[trigger] after.stores[j]).name == name;
            assert(before.stores[j].name == name);
        }
        if before.has_store(name) {
            let j = choose|j: int|
                0 <= j < before.stores.len() && (#[trigger] before.stores[j]).name == name;
            assert(after.stores[j].name == name);
        }
    }
    let name = before.stores[i].name;
    assert(after.stores[i].name == name);
}

/// The file whose existence decides whether the default store starts
/// resident.
pub fn default_file(settings: &Settings) -> (path: String)
    ensures
        path@ == file_path(settings.dtf_folder@, "default"@),
{
    file_in(settings.dtf_folder.as_str(), "default")
}

/// Starts a session: one store, called `default`, in `dtf_folder`, empty
/// and selected. It counts as resident exactly if its file does not exist.
pub fn init_state(settings: &Settings, dtf_folder: &str, default_file_exists: bool) -> (state:
    State)
    ensures
        state@.wf(),
        state@.is_adding == false,
        state@.current == "default"@,
        state@.settings == settings@,
        state@.stores == seq![
            StoreView {
                name: "default"@,
                folder: dtf_folder@,
                in_memory: !default_file_exists,
                size: 0,
                records: Seq::empty(),
            },
        ],
{
    let default_store = Store {
        name: "default".to_owned(),
        v: Vec::new(),
        size: 0,
        in_memory: !default_file_exists,
        folder: dtf_folder.to_owned(),
    };
    let mut store: Vec<Store> = Vec::new();
    store.push(default_store);
    let state = State {
        current_store_name: "default".to_owned(),
        is_adding: false,
        store,
        settings: Settings {
            autoflush: settings.autoflush,
            dtf_folder: settings.dtf_folder.clone(),
            flush_interval: settings.flush_interval,
        },
    };
    proof {
        assert(state@.stores =~= seq![
            StoreView {
                name: "default"@,
                folder: dtf_folder@,
                in_memory: !default_file_exists,
                size: 0,
                records: Seq::empty(),
            },
        ]);
        assert(state@.stores[0].name == state@.current);
    }
    state
}

} // verus!
