//! The persistence repository over a snapshot of the backing store.
//!
//! The backing store is abstracted as a plain value: the text of the group
//! record and, per candidate ledger folder, the folder's name and files. A
//! folder counts as a ledger exactly when it is not hidden (its name does
//! not start with a dot) and holds a marker record named `.ledger.toml`
//! that parses. A marker that fails to parse fails the whole scan, since a
//! partial ledger set would corrupt every balance computed from it. A
//! transaction record that fails to parse is skipped, so one bad expense
//! does not hide a ledger's remaining history.

use vstd::prelude::*;
use crate::codec::{parse_group, parse_group_lines, parse_ledger, parse_ledger_lines,
    parse_transaction, parse_txn_lines, split_lines};
use crate::domain::{Group, Ledger, LedgerV, Transaction, TransactionV};
use crate::errors::{PersistenceError, RefreshResult};
use crate::ids::Uid;

verus! {

/// A named file of the snapshot.
#[derive(Clone, Debug, PartialEq)]
pub struct NamedFile {
    pub name: String,
    pub text: String,
}

/// Ghost mirror of a [`NamedFile`].
pub ghost struct NamedFileV {
    pub name: Seq<char>,
    pub text: Seq<char>,
}

impl View for NamedFile {
    type V = NamedFileV;

    open spec fn view(&self) -> NamedFileV {
        NamedFileV { name: self.name@, text: self.text@ }
    }
}

/// One candidate ledger folder of the snapshot.
#[derive(Clone, Debug, PartialEq)]
pub struct LedgerDir {
    pub name: String,
    pub files: Vec<NamedFile>,
}

/// Ghost mirror of a [`LedgerDir`].
pub ghost struct LedgerDirV {
    pub name: Seq<char>,
    pub files: Seq<NamedFileV>,
}

impl View for LedgerDir {
    type V = LedgerDirV;

    open spec fn view(&self) -> LedgerDirV {
        LedgerDirV {
            name: self.name@,
            files: Seq::new(self.files@.len(), |i: int| self.files@[i]@),
        }
    }
}

/// A read-only snapshot of the backing store's tree.
#[derive(Clone, Debug, PartialEq)]
pub struct StoreSnapshot {
    /// The text of the group record, when one exists.
    pub group_file: Option<String>,
    /// The candidate ledger folders under the ledgers namespace.
    pub ledger_dirs: Vec<LedgerDir>,
}

/// Ghost mirror of a [`StoreSnapshot`].
pub ghost struct StoreSnapshotV {
    pub group_file: Option<Seq<char>>,
    pub ledger_dirs: Seq<LedgerDirV>,
}

impl View for StoreSnapshot {
    type V = StoreSnapshotV;

    open spec fn view(&self) -> StoreSnapshotV {
        StoreSnapshotV {
            group_file: match self.group_file {
                Some(ref s) => Some(s@),
                None => None,
            },
            ledger_dirs: Seq::new(self.ledger_dirs@.len(), |i: int| self.ledger_dirs@[i]@),
        }
    }
}

/// A name is hidden when it starts with a dot.
pub open spec fn is_hidden(name: Seq<char>) -> bool {
    name.len() > 0 && name[0] == '.'
}

/// The text of the first file named `.ledger.toml`, if any.
pub open spec fn marker_of(files: Seq<NamedFileV>) -> Option<Seq<char>>
    decreases files.len(),
{
    if files.len() == 0 {
        None
    } else if files[0].name == ".ledger.toml"@ {
        Some(files[0].text)
    } else {
        marker_of(files.drop_first())
    }
}

/// Discover the ledgers of the snapshot's folders: hidden folders and
/// folders without a marker are skipped; a marker that fails to parse
/// fails the whole scan.
pub open spec fn discover(dirs: Seq<LedgerDirV>) -> Option<Seq<LedgerV>>
    decreases dirs.len(),
{
    if dirs.len() == 0 {
        Some(Seq::empty())
    } else {
        let d = dirs[0];
        if is_hidden(d.name) {
            discover(dirs.drop_first())
        } else {
            match marker_of(d.files) {
                None => discover(dirs.drop_first()),
                Some(text) => match parse_ledger_lines(split_lines(text)) {
                    Some(l) => match discover(dirs.drop_first()) {
                        Some(rest) => Some(seq![l] + rest),
                        None => None,
                    },
                    None => None,
                },
            }
        }
    }
}

/// Some visible folder carries this name and a marker record that fails
/// to parse: the witness a failed scan's error names.
pub open spec fn failing_marker(dirs: Seq<LedgerDirV>, name: Seq<char>) -> bool {
    exists|k: int|
        0 <= k < dirs.len() && !is_hidden((#[trigger] dirs[k]).name) && dirs[k].name == name && (
        marker_of(dirs[k].files) matches Some(text) && parse_ledger_lines(split_lines(text))
            is None)
}

/// The transactions of a folder's files: hidden files are skipped, records
/// that fail to parse are skipped.
pub open spec fn txns_of(files: Seq<NamedFileV>) -> Seq<TransactionV>
    decreases files.len(),
{
    if files.len() == 0 {
        Seq::empty()
    } else {
        let f = files[0];
        if is_hidden(f.name) {
            txns_of(files.drop_first())
        } else {
            match parse_txn_lines(split_lines(f.text)) {
                Some(t) => seq![t] + txns_of(files.drop_first()),
                None => txns_of(files.drop_first()),
            }
        }
    }
}

/// The identifiers of an index, in order.
pub open spec fn index_ids(es: Seq<IndexEntry>) -> Seq<Uid> {
    es.map_values(|e: IndexEntry| e.id)
}

/// The identifiers of a ledger list, in order.
pub open spec fn ledger_ids(ls: Seq<LedgerV>) -> Seq<Uid> {
    ls.map_values(|l: LedgerV| l.id)
}

/// One entry of the ledger index: a ledger's identifier and the position
/// of its folder in the snapshot.
#[derive(Clone, Copy, Debug, PartialEq)]
pub struct IndexEntry {
    pub id: Uid,
    pub dir: usize,
}

/// A repository over an in-memory snapshot: the one storage-agnostic
/// backend the library verifies end to end. An outer shell that reads a
/// versioned tree or a plain filesystem only has to build the snapshot.
#[derive(Clone, Debug, PartialEq)]
pub struct MemRepository {
    pub snapshot: StoreSnapshot,
    /// The ledger-to-folder index, rebuilt wholesale by `refresh`.
    pub index: Vec<IndexEntry>,
}

impl MemRepository {
    /// The entries point at visible folders of this snapshot whose markers
    /// parse to ledgers with the recorded identifiers.
    pub open spec fn entries_ok(self, es: Seq<IndexEntry>) -> bool {
        forall|k: int|
            0 <= k < es.len() ==> {
                let e = #[trigger] es[k];
                &&& e.dir < self.snapshot@.ledger_dirs.len()
                &&& !is_hidden(self.snapshot@.ledger_dirs[e.dir as int].name)
                &&& marker_of(self.snapshot@.ledger_dirs[e.dir as int].files) matches Some(text)
                    && parse_ledger_lines(split_lines(text)) matches Some(l) && l.id == e.id
            }
    }

    /// The index points at folders whose markers parse to ledgers with the
    /// recorded identifiers.
    pub open spec fn index_ok(self) -> bool {
        self.entries_ok(self.index@)
    }

    /// Open a repository over a snapshot, with an empty index; call
    /// `refresh` to build the index.
    pub fn new(snapshot: StoreSnapshot) -> (r: MemRepository)
        ensures
            r.snapshot == snapshot,
            r.index@.len() == 0,
            r.index_ok(),
    {
        MemRepository { snapshot, index: Vec::new() }
    }

    /// Load the group record; an error when it is missing or does not
    /// parse.
    pub fn load_group(&self) -> (r: Result<Group, PersistenceError>)
        ensures
            r matches Ok(g) ==> self.snapshot@.group_file matches Some(text)
                && parse_group_lines(split_lines(text)) == Some(g@.entities),
            r is Err <==> (self.snapshot@.group_file is None || (
            self.snapshot@.group_file matches Some(text) && parse_group_lines(split_lines(text))
                is None)),
            self.snapshot@.group_file is None ==> (r matches Err(e) && e is NotFound),
            (self.snapshot@.group_file matches Some(text) && parse_group_lines(split_lines(text))
                is None) ==> (r matches Err(e) && e is Toml),
    {
        match self.snapshot.group_file {
            Some(ref text) => parse_group(text.as_str()),
            None => Err(PersistenceError::NotFound("the group record is missing".to_owned())),
        }
    }

    /// Scan the snapshot and return every ledger: hidden folders and
    /// folders without a marker are skipped; a marker that fails to parse
    /// fails the scan.
    pub fn list_ledgers(&self) -> (r: Result<Vec<Ledger>, PersistenceError>)
        ensures
            r matches Ok(ls) ==> discover(self.snapshot@.ledger_dirs) == Some(
                Seq::new(ls@.len(), |i: int| ls@[i]@),
            ),
            r is Err <==> discover(self.snapshot@.ledger_dirs) is None,
            r matches Err(e) ==> e is ParseLedger,
            r matches Err(e) ==> (e matches PersistenceError::ParseLedger { ledger_name, .. }
                && failing_marker(self.snapshot@.ledger_dirs, ledger_name@)),
    {
        let ghost dirs = self.snapshot@.ledger_dirs;
        let mut out: Vec<Ledger> = Vec::new();
        let n: usize = self.snapshot.ledger_dirs.len();
        let mut i: usize = 0;
        proof {
            assert(dirs.skip(0) =~= dirs);
            if discover(dirs) is Some {
                assert(Seq::new(out@.len(), |k: int| out@[k]@) + discover(dirs)->Some_0
                    =~= discover(dirs)->Some_0);
            }
        }
        while i < n
            invariant
                0 <= i <= n,
                n == self.snapshot.ledger_dirs@.len(),
                dirs == self.snapshot@.ledger_dirs,
                dirs.len() == n,
                discover(dirs) matches Some(w) ==> discover(dirs.skip(i as int)) matches Some(
                    tail,
                ) && w == Seq::new(out@.len(), |k: int| out@[k]@) + tail,
                discover(dirs) is None ==> discover(dirs.skip(i as int)) is None,
            decreases n - i,
        {
            let ghost suffix = dirs.skip(i as int);
            proof {
                assert(suffix[0] == dirs[i as int]);
                assert(suffix.drop_first() =~= dirs.skip(i as int + 1));
            }
            let dir: &LedgerDir = &self.snapshot.ledger_dirs[i];
            let hidden: bool = starts_with_dot(&dir.name);
            if !hidden {
                match find_marker(&dir.files) {
                    Some(text) => {
                        match parse_ledger(text.as_str()) {
                            Ok(l) => {
                                out.push(l);
                                proof {
                                    let lv = Seq::new(out@.len(), |k: int| out@[k]@);
                                    if discover(dirs) is Some {
                                        let tail2 = discover(dirs.skip(i as int + 1))->Some_0;
                                        assert(lv + tail2 =~= Seq::new(
                                            (out@.len() - 1) as nat,
                                            |k: int| out@.drop_last()[k]@,
                                        ) + (seq![out@.last()@] + tail2));
                                        assert(lv =~= Seq::new(
                                            (out@.len() - 1) as nat,
                                            |k: int| out@.drop_last()[k]@,
                                        ).push(out@.last()@));
                                    }
                                }
                            },
                            Err(_) => {
                                proof {
                                    assert(!is_hidden(dirs[i as int].name) && dirs[i as int].name
                                        == dir.name@ && (marker_of(dirs[i as int].files)
                                        matches Some(t2) && parse_ledger_lines(split_lines(t2))
                                        is None));
                                    assert(failing_marker(dirs, dir.name@));
                                }
                                let mut msg: String = String::new();
                                msg.append("the ledger marker did not parse");
                                return Err(
                                    PersistenceError::ParseLedger {
                                        ledger_name: dir.name.clone(),
                                        message: msg,
                                    },
                                );
                            },
                        }
                    },
                    None => {
                    },
                }
            }
            i = i + 1;
        }
        proof {
            assert(dirs.skip(n as int) =~= Seq::<LedgerDirV>::empty());
            if discover(dirs) is Some {
                assert(discover(dirs)->Some_0 =~= Seq::new(out@.len(), |k: int| out@[k]@));
            }
        }
        Ok(out)
    }

    /// Rebuild the ledger index from the snapshot, wholesale; idempotent.
    /// A failed scan leaves the repository untouched, prior index included:
    /// a working index is never traded for a broken scan. The result
    /// reports a change conservatively, as the backing snapshot carries no
    /// version marker to compare against.
    pub fn refresh(&mut self) -> (r: Result<RefreshResult, PersistenceError>)
        ensures
            final(self).snapshot == old(self).snapshot,
            r is Ok ==> final(self).index_ok(),
            r is Ok ==> (discover(old(self).snapshot@.ledger_dirs) matches Some(ls) && index_ids(
                final(self).index@,
            ) == ledger_ids(ls)),
            r is Err <==> discover(old(self).snapshot@.ledger_dirs) is None,
            r matches Ok(rr) ==> rr.has_changes,
            r is Err ==> *final(self) == *old(self),
            r matches Err(e) ==> (e matches PersistenceError::ParseLedger { ledger_name, .. }
                && failing_marker(old(self).snapshot@.ledger_dirs, ledger_name@)),
    {
        let ghost dirs = self.snapshot@.ledger_dirs;
        let n: usize = self.snapshot.ledger_dirs.len();
        let mut fresh: Vec<IndexEntry> = Vec::new();
        let mut i: usize = 0;
        proof {
            assert(dirs.skip(0) =~= dirs);
        }
        while i < n
            invariant
                0 <= i <= n,
                *self == *old(self),
                n == self.snapshot.ledger_dirs@.len(),
                dirs == self.snapshot@.ledger_dirs,
                dirs.len() == n,
                self.entries_ok(fresh@),
                discover(dirs) is Some <==> discover(dirs.skip(i as int)) is Some,
                discover(dirs) matches Some(w) ==> discover(dirs.skip(i as int)) matches Some(
                    tail,
                ) && ledger_ids(w) == index_ids(fresh@) + ledger_ids(tail),
            decreases n - i,
        {
            let ghost suffix = dirs.skip(i as int);
            proof {
                assert(suffix[0] == dirs[i as int]);
                assert(suffix.drop_first() =~= dirs.skip(i as int + 1));
            }
            let dir: &LedgerDir = &self.snapshot.ledger_dirs[i];
            let hidden: bool = starts_with_dot(&dir.name);
            if !hidden {
                match find_marker(&dir.files) {
                    Some(text) => {
                        match parse_ledger(text.as_str()) {
                            Ok(l) => {
                                let ghost pre = fresh@;
                                fresh.push(IndexEntry { id: l.id, dir: i });
                                proof {
                                    if discover(dirs) is Some {
                                        let tail2 = discover(dirs.skip(i as int + 1))->Some_0;
                                        assert(index_ids(fresh@) + ledger_ids(tail2)
                                            =~= index_ids(pre) + (seq![l@.id] + ledger_ids(
                                            tail2,
                                        )));
                                        assert(index_ids(fresh@) =~= index_ids(pre).push(l.id));
                                    }
                                    assert forall|k: int|
                                        0 <= k < fresh@.len() implies {
                                        let e = #[trigger] fresh@[k];
                                        &&& e.dir < self.snapshot@.ledger_dirs.len()
                                        &&& !is_hidden(
                                            self.snapshot@.ledger_dirs[e.dir as int].name,
                                        )
                                        &&& marker_of(
                                            self.snapshot@.ledger_dirs[e.dir as int].files,
                                        ) matches Some(text2) && parse_ledger_lines(
                                            split_lines(text2),
                                        ) matches Some(l2) && l2.id == e.id
                                    } by {
                                        if k < pre.len() {
                                            assert(fresh@[k] == pre[k]);
                                        }
                                    }
                                }
                            },
                            Err(_) => {
                                proof {
                                    assert(!is_hidden(dirs[i as int].name) && dirs[i as int].name
                                        == dir.name@ && (marker_of(dirs[i as int].files)
                                        matches Some(t2) && parse_ledger_lines(split_lines(t2))
                                        is None));
                                    assert(failing_marker(dirs, dir.name@));
                                }
                                let mut msg: String = String::new();
                                msg.append("the ledger marker did not parse");
                                return Err(
                                    PersistenceError::ParseLedger {
                                        ledger_name: dir.name.clone(),
                                        message: msg,
                                    },
                                );
                            },
                        }
                    },
                    None => {
                    },
                }
            }
            i = i + 1;
        }
        proof {
            assert(dirs.skip(n as int) =~= Seq::<LedgerDirV>::empty());
            if discover(dirs) is Some {
                assert(ledger_ids(discover(dirs)->Some_0) =~= index_ids(fresh@));
            }
        }
        self.index = fresh;
        Ok(RefreshResult { has_changes: true })
    }

    /// Every index entry points inside the snapshot.
    pub open spec fn index_in_bounds(self) -> bool {
        forall|k: int|
            0 <= k < self.index@.len() ==> (#[trigger] self.index@[k]).dir
                < self.snapshot@.ledger_dirs.len()
    }

    /// Check, at run time, that every index entry points inside the
    /// snapshot.
    pub fn check_index_in_bounds(&self) -> (b: bool)
        ensures
            b == self.index_in_bounds(),
    {
        let n: usize = self.index.len();
        let m: usize = self.snapshot.ledger_dirs.len();
        let mut i: usize = 0;
        while i < n
            invariant
                0 <= i <= n,
                n == self.index@.len(),
                m == self.snapshot@.ledger_dirs.len(),
                forall|k: int| 0 <= k < i ==> (#[trigger] self.index@[k]).dir < m,
            decreases n - i,
        {
            if self.index[i].dir >= m {
                return false;
            }
            i = i + 1;
        }
        true
    }

    /// The transactions of the ledger with this identifier: every
    /// non-hidden record of its folder that parses, in folder order. An
    /// error exactly when the identifier is not in the index.
    pub fn list_transactions(&self, ledger_id: Uid) -> (r: Result<
        Vec<Transaction>,
        PersistenceError,
    >)
        requires
            self.index_in_bounds(),
        ensures
            r matches Ok(ts) ==> exists|k: int|
                0 <= k < self.index@.len() && (#[trigger] self.index@[k]).id == ledger_id && Seq::new(
                    ts@.len(),
                    |i: int| ts@[i]@,
                ) == txns_of(self.snapshot@.ledger_dirs[self.index@[k].dir as int].files),
            r is Err <==> !exists|k: int|
                0 <= k < self.index@.len() && (#[trigger] self.index@[k]).id == ledger_id,
            r matches Err(e) ==> e is NotFound,
    {
        let n: usize = self.index.len();
        let mut i: usize = 0;
        while i < n
            invariant
                0 <= i <= n,
                n == self.index@.len(),
                self.index_in_bounds(),
                forall|k: int| 0 <= k < i ==> (#[trigger] self.index@[k]).id != ledger_id,
            decreases n - i,
        {
            if self.index[i].id == ledger_id {
                let d: usize = self.index[i].dir;
                let ts: Vec<Transaction> = read_transactions(&self.snapshot.ledger_dirs[d].files);
                return Ok(ts);
            }
            i = i + 1;
        }
        Err(PersistenceError::NotFound("the ledger id is not in the index".to_owned()))
    }

    /// Persisting changes is not supported by the snapshot-backed
    /// repository; every write reports the capability gap.
    pub fn save_group(&self, _group: &Group) -> (r: Result<(), PersistenceError>)
        ensures
            r is Err,
            r matches Err(e) ==> e is UnsupportedOperation,
    {
        Err(PersistenceError::UnsupportedOperation("save_group is not supported".to_owned()))
    }
}

/// Whether a name starts with a dot.
fn starts_with_dot(name: &String) -> (b: bool)
    ensures
        b == is_hidden(name@),
{
    let n: usize = vstd::string::StrSliceExecFns::unicode_len(name.as_str());
    if n == 0 {
        false
    } else {
        vstd::string::StrSliceExecFns::get_char(name.as_str(), 0) == '.'
    }
}

/// Find the first marker file `.ledger.toml` and hand back its text.
fn find_marker(files: &Vec<NamedFile>) -> (r: Option<&String>)
    ensures
        r matches Some(text) ==> marker_of(Seq::new(files@.len(), |i: int| files@[i]@)) == Some(
            text@,
        ),
        r is None <==> marker_of(Seq::new(files@.len(), |i: int| files@[i]@)) is None,
{
    let ghost fv = Seq::new(files@.len(), |i: int| files@[i]@);
    let n: usize = files.len();
    let mut i: usize = 0;
    proof {
        assert(fv.skip(0) =~= fv);
    }
    while i < n
        invariant
            0 <= i <= n,
            n == files@.len(),
            fv == Seq::new(files@.len(), |k: int| files@[k]@),
            fv.len() == n,
            marker_of(fv) == marker_of(fv.skip(i as int)),
        decreases n - i,
    {
        proof {
            assert(fv.skip(i as int)[0] == fv[i as int]);
            assert(fv.skip(i as int).drop_first() =~= fv.skip(i as int + 1));
        }
        if crate::codec::chars_eq_str_pub(files[i].name.as_str(), ".ledger.toml") {
            return Some(&files[i].text);
        }
        i = i + 1;
    }
    proof {
        assert(fv.skip(n as int) =~= Seq::<NamedFileV>::empty());
    }
    None
}

/// Read every transaction of a folder: hidden files skipped, records that
/// fail to parse skipped.
fn read_transactions(files: &Vec<NamedFile>) -> (r: Vec<Transaction>)
    ensures
        Seq::new(r@.len(), |i: int| r@[i]@) == txns_of(Seq::new(files@.len(), |i: int| files@[i]@)),
{
    let ghost fv = Seq::new(files@.len(), |i: int| files@[i]@);
    let mut out: Vec<Transaction> = Vec::new();
    let n: usize = files.len();
    let mut i: usize = 0;
    proof {
        assert(fv.skip(0) =~= fv);
        assert(Seq::new(out@.len(), |k: int| out@[k]@) + txns_of(fv) =~= txns_of(fv));
    }
    while i < n
        invariant
            0 <= i <= n,
            n == files@.len(),
            fv == Seq::new(files@.len(), |k: int| files@[k]@),
            fv.len() == n,
            txns_of(fv) == Seq::new(out@.len(), |k: int| out@[k]@) + txns_of(fv.skip(i as int)),
        decreases n - i,
    {
        let ghost suffix = fv.skip(i as int);
        proof {
            assert(suffix[0] == fv[i as int]);
            assert(suffix.drop_first() =~= fv.skip(i as int + 1));
        }
        let hidden: bool = starts_with_dot(&files[i].name);
        if !hidden {
            match parse_transaction(files[i].text.as_str()) {
                Ok(t) => {
                    out.push(t);
                    proof {
                        let ov = Seq::new(out@.len(), |k: int| out@[k]@);
                        let tail2 = txns_of(fv.skip(i as int + 1));
                        assert(ov + tail2 =~= Seq::new(
                            (out@.len() - 1) as nat,
                            |k: int| out@.drop_last()[k]@,
                        ) + (seq![out@.last()@] + tail2));
                    }
                },
                Err(_) => {
                },
            }
        }
        i = i + 1;
    }
    proof {
        assert(fv.skip(n as int) =~= Seq::<NamedFileV>::empty());
        assert(Seq::new(out@.len(), |k: int| out@[k]@) + txns_of(fv.skip(n as int)) =~= Seq::new(
            out@.len(),
            |k: int| out@[k]@,
        ));
    }
    out
}

} // verus!
