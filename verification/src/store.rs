//! A named, file-backed buffer of updates, without the file.
//!
//! The store keeps the records that are in memory and the count of all its
//! records. What has to happen on disk it hands to its caller as a value, and
//! what was read from disk it takes as an argument.

use vstd::prelude::*;
use vstd::string::StringExecFns;
use crate::update::Update;

verus! {

/// What a store looks like to a contract.
pub struct StoreView {
    pub name: Seq<char>,
    pub folder: Seq<char>,
    pub in_memory: bool,
    pub size: u64,
    pub records: Seq<Update>,
}

/// What a flush asks of the codec, as a contract sees it.
pub enum FlushPlan {
    Append { path: Seq<char> },
    Encode { path: Seq<char>, name: Seq<char> },
}

/// What a flush asks of the codec, with the store's resident records.
#[derive(Debug)]
pub enum FlushOp {
    /// Append to the file at `path` the records that are newer than what it holds.
    Append { path: String },
    /// Write a new file at `path`, with `name` in its header.
    Encode { path: String, name: String },
}

impl View for FlushOp {
    type V = FlushPlan;

    open spec fn view(&self) -> FlushPlan {
        match self {
            FlushOp::Append { path } => FlushPlan::Append { path: path@ },
            FlushOp::Encode { path, name } => FlushPlan::Encode { path: path@, name: name@ },
        }
    }
}

/// `name`: the store's name, and the base name of its file.
/// `in_memory`: whether the file's records have been read into memory.
/// `size`: the count of all records, resident or not.
/// `v`: the resident records.
#[derive(Debug)]
pub struct Store {
    pub name: String,
    pub folder: String,
    pub in_memory: bool,
    pub size: u64,
    pub v: Vec<Update>,
}

impl View for Store {
    type V = StoreView;

    open spec fn view(&self) -> StoreView {
        StoreView {
            name: self.name@,
            folder: self.folder@,
            in_memory: self.in_memory,
            size: self.size,
            records: self.v@,
        }
    }
}

/// The file of the store `name` in `folder`: `<folder>/<name>.dtf`.
pub open spec fn file_path(folder: Seq<char>, name: Seq<char>) -> Seq<char> {
    folder + seq!['/'] + name + seq!['.', 'd', 't', 'f']
}

impl StoreView {
    /// The store's file.
    pub open spec fn path(self) -> Seq<char> {
        file_path(self.folder, self.name)
    }

    /// The store with one more record, resident and counted.
    pub open spec fn added(self, u: Update) -> StoreView {
        StoreView { size: (self.size + 1) as u64, records: self.records.push(u), ..self }
    }

    /// The store with all of `us` added, one after the other.
    pub open spec fn added_all(self, us: Seq<Update>) -> StoreView
        decreases us.len(),
    {
        if us.len() == 0 {
            self
        } else {
            self.added_all(us.drop_last()).added(us.last())
        }
    }

    /// What a flush asks for: an append where the file exists, a new file
    /// under the store's name where it does not.
    pub open spec fn flush_plan(self, file_exists: bool) -> FlushPlan {
        if file_exists {
            FlushPlan::Append { path: self.path() }
        } else {
            FlushPlan::Encode { path: self.path(), name: self.name }
        }
    }

    /// The file that a load asks to have decoded: the store's own, where it
    /// exists and the store is not resident yet.
    pub open spec fn load_request(self, file_exists: bool) -> Option<Seq<char>> {
        if file_exists && !self.in_memory {
            Some(self.path())
        } else {
            None
        }
    }

    /// The store once `decoded` has been read from its file.
    pub open spec fn loaded(self, decoded: Seq<Update>) -> StoreView {
        StoreView { in_memory: true, size: decoded.len() as u64, records: decoded, ..self }
    }

    /// The store with its count set to the file's.
    pub open spec fn resized(self, header_size: u64) -> StoreView {
        StoreView { size: header_size, ..self }
    }

    /// The store with nothing resident, and its count set to the file's.
    pub open spec fn cleared(self, header_size: u64) -> StoreView {
        StoreView { in_memory: false, size: header_size, records: Seq::empty(), ..self }
    }
}

/// Builds the path of the file of the store `name` in `folder`.
pub fn file_in(folder: &str, name: &str) -> (path: String)
    ensures
        path@ == file_path(folder@, name@),
{
    proof {
        reveal_strlit("/");
        reveal_strlit(".dtf");
    }
    let mut path = folder.to_owned();
    path.append("/");
    path.append(name);
    path.append(".dtf");
    proof {
        assert("/"@ =~= seq!['/']);
        assert(".dtf"@ =~= seq!['.', 'd', 't', 'f']);
    }
    path
}

impl Store {
    /// The path of the store's file.
    pub fn file_name(&self) -> (path: String)
        ensures
            path@ == self@.path(),
    {
        file_in(self.folder.as_str(), self.name.as_str())
    }

    /// Pushes a new update: it becomes resident, and the count grows by one.
    pub fn add(&mut self, new_vec: Update)
        requires
            old(self).size < u64::MAX,
        ensures
            final(self)@ == old(self)@.added(new_vec),
    {
        self.size = self.size + 1;
        self.v.push(new_vec);
    }

    /// Says what has to be written to commit the resident records. The
    /// caller tells whether the store's file exists, and hands `self.v` to
    /// the codec as the result says.
    pub fn flush(&self, file_exists: bool) -> (op: FlushOp)
        ensures
            op@ == self@.flush_plan(file_exists),
    {
        let path = self.file_name();
        if file_exists {
            FlushOp::Append { path }
        } else {
            FlushOp::Encode { path, name: self.name.clone() }
        }
    }

    /// Says which file has to be decoded to make the store resident, if any.
    /// The caller tells whether the store's file exists, decodes the file
    /// named, and hands the records to [`Store::finish_load`].
    pub fn load(&self, file_exists: bool) -> (request: Option<String>)
        ensures
            match request {
                Some(path) => self@.load_request(file_exists) == Some(path@),
                None => self@.load_request(file_exists) is None,
            },
    {
        if file_exists && !self.in_memory {
            Some(self.file_name())
        } else {
            None
        }
    }

    /// Takes in the records decoded from the store's file: they become the
    /// resident records, and their number the count.
    pub fn finish_load(&mut self, decoded: Vec<Update>)
        ensures
            final(self)@ == old(self)@.loaded(decoded@),
    {
        self.size = decoded.len() as u64;
        self.v = decoded;
        self.in_memory = true;
    }

    /// Sets the count to `header_size`, the record count in the header of
    /// the store's file.
    pub fn load_size_from_file(&mut self, header_size: u64)
        ensures
            final(self)@ == old(self)@.resized(header_size),
    {
        self.size = header_size;
    }

    /// Drops the resident records and sets the count to `header_size`, the
    /// record count in the header of the store's file. Records that were
    /// never flushed are lost.
    pub fn clear(&mut self, header_size: u64)
        ensures
            final(self)@ == old(self)@.cleared(header_size),
    {
        self.v.clear();
        self.in_memory = false;
        self.load_size_from_file(header_size);
    }
}

proof fn lemma_added_all(s: StoreView, us: Seq<Update>)
    requires
        s.size + us.len() <= u64::MAX,
    ensures
        s.added_all(us).records == s.records + us,
        s.added_all(us).size == s.size + us.len(),
        s.added_all(us).name == s.name,
        s.added_all(us).folder == s.folder,
        s.added_all(us).in_memory == s.in_memory,
    decreases us.len(),
{
    if us.len() > 0 {
        lemma_added_all(s, us.drop_last());
        assert(s.records + us =~= (s.records + us.drop_last()).push(us.last()));
    } else {
        assert(s.records + us =~= s.records);
    }
}

/// A store's records come back from its file in the order in which they
/// were added.
///
/// Adding `us` to an empty store whose file does not exist yet, and
/// flushing, asks for a new file at the store's path, and the records that
/// go with the request are `us`. A second store of the same name and
/// folder, not resident, asks to have that same file decoded when it is
/// loaded; given what the codec decodes from a file that holds `us`, it
/// ends resident with `us` as its records and their number as its count.
pub proof fn lemma_store_round_trip(empty: StoreView, cold: StoreView, us: Seq<Update>)
    requires
        empty.records.len() == 0,
        empty.size == 0,
        us.len() <= u64::MAX,
        cold.name == empty.name,
        cold.folder == empty.folder,
        !cold.in_memory,
    ensures
        empty.added_all(us).records == us,
        empty.added_all(us).size == us.len(),
        empty.added_all(us).flush_plan(false) == (FlushPlan::Encode {
            path: cold.path(),
            name: cold.name,
        }),
        cold.load_request(true) == Some(empty.added_all(us).path()),
        cold.loaded(us).records == us,
        cold.loaded(us).size == us.len(),
        cold.loaded(us).in_memory,
{
    lemma_added_all(empty, us);
    assert(empty.records + us =~= us);
}

} // verus!
