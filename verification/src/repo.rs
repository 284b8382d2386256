//! Repositories: commits and history over any object store.
//!
//! The repository directory and its `HEAD` file are read and written by
//! the caller; a [`Repository`] holds the root path, the object store and
//! the current head commit.

use std::collections::BTreeMap;
use vstd::prelude::*;

use crate::hash::address_of;
use crate::object::{decode_object, encode_object, option_address, Commit, CommitView, Object, ObjectView};
use crate::store::{stored_after_writes, ObjectStore, StoreError};

verus! {

broadcast use vstd::std_specs::btree::group_btree_axioms;

/// A filesystem path, carried as the repository root.
#[verifier::external_type_specification]
#[verifier::external_body]
pub struct ExPathBuf(std::path::PathBuf);

/// A world snapshot: chunk coordinates mapped to compressed chunk data.
///
/// This is the unit of input for [`Repository::commit`].
pub type World = BTreeMap<crate::object::ChunkCoords, Vec<u8>>;

/// A single entry in a repository's commit history.
#[derive(Debug, Clone, PartialEq, Eq)]
pub struct LogEntry {
    /// Hash of the commit.
    pub hash: crate::hash::Hash,
    /// Commit message.
    pub message: String,
}

/// Why a repository operation fails.
#[derive(Debug, Clone, PartialEq, Eq)]
pub enum RepoError {
    /// The object store failed.
    Store(StoreError),
    /// The object stored under this address does not have it or is not an
    /// object encoding.
    Corrupt(crate::hash::Hash),
    /// The object under this address is not a commit.
    NotACommit(crate::hash::Hash),
    /// The `HEAD` file holds neither nothing nor a commit address.
    BadHead(crate::hash::ParseHashError),
    /// The system clock is before the Unix epoch.
    ClockBeforeEpoch,
    /// The parent chain from HEAD comes back to this commit, so the
    /// history never ends.
    HistoryCycle(crate::hash::Hash),
    /// The object under this address is not of the kind that refers to it
    /// needs: the tree of a commit, or the blob of a tree entry.
    WrongKind(crate::hash::Hash),
}

/// A chunklog repository.
///
/// The repository layout (`.chunklog/`, `HEAD`, staging) lives on the
/// filesystem, while objects are stored in a pluggable [`ObjectStore`].
pub struct Repository<S> {
    root: std::path::PathBuf,
    store: S,
    head: Option<crate::hash::Hash>,
}

/// The result of walking a commit history.
pub enum Walk {
    /// The commits from the start, newest first, as address and message.
    Done(Seq<(u64, Seq<char>)>),
    /// The object under this address is missing or is not a commit.
    Broken(u64),
    /// The walk needed more steps than it was given.
    OutOfFuel,
}

/// Walks at most `fuel` commits from `cur` through their parents.
pub open spec fn walk(objs: Map<u64, Seq<u8>>, cur: Option<u64>, fuel: nat) -> Walk
    decreases fuel,
{
    match cur {
        None => Walk::Done(seq![]),
        Some(h) => if fuel == 0 {
            Walk::OutOfFuel
        } else if !objs.contains_key(h) {
            Walk::Broken(h)
        } else {
            match decode_object(objs[h]) {
                Some(ObjectView::Commit(c)) => match walk(objs, c.parent, (fuel - 1) as nat) {
                    Walk::Done(es) => Walk::Done(seq![(h, c.message)] + es),
                    other => other,
                },
                _ => Walk::Broken(h),
            }
        },
    }
}

/// Whether the parent chain from `head` ends: in a first commit or in a
/// missing or non-commit object.
pub open spec fn history_ends(objs: Map<u64, Seq<u8>>, head: Option<u64>) -> bool {
    head is None || exists|fuel: nat| !(#[trigger] walk(objs, head, fuel) is OutOfFuel)
}

/// The history from `head`, when its parent chain ends.
pub open spec fn history(objs: Map<u64, Seq<u8>>, head: Option<u64>) -> Walk {
    walk(objs, head, choose|fuel: nat| !(#[trigger] walk(objs, head, fuel) is OutOfFuel))
}

/// `es` followed by the commits of `w`.
pub open spec fn prepend(es: Seq<(u64, Seq<char>)>, w: Walk) -> Walk {
    match w {
        Walk::Done(rest) => Walk::Done(es + rest),
        other => other,
    }
}

/// Log entries as address and message.
pub open spec fn entries_view(v: Seq<LogEntry>) -> Seq<(u64, Seq<char>)> {
    v.map_values(|e: LogEntry| (e.hash@, e.message@))
}

/// More fuel does not change a walk that ended.
pub proof fn lemma_walk_fuel(objs: Map<u64, Seq<u8>>, cur: Option<u64>, f: nat, g: nat)
    requires
        f <= g,
        !(walk(objs, cur, f) is OutOfFuel),
    ensures
        walk(objs, cur, g) == walk(objs, cur, f),
    decreases f,
{
    match cur {
        None => {},
        Some(h) => {
            if objs.contains_key(h) {
                match decode_object(objs[h]) {
                    Some(ObjectView::Commit(c)) => {
                        lemma_walk_fuel(objs, c.parent, (f - 1) as nat, (g - 1) as nat);
                    },
                    _ => {},
                }
            }
        },
    }
}

/// Whether the commit at position `i` of a walked chain is stored as a
/// commit with the entry `es[i]`, whose parent is the next position (or
/// `next` after the last one).
pub open spec fn chain_link(
    objs: Map<u64, Seq<u8>>,
    seen: Seq<u64>,
    es: Seq<(u64, Seq<char>)>,
    next: Option<u64>,
    i: int,
) -> bool {
    &&& objs.contains_key(seen[i])
    &&& decode_object(objs[seen[i]]) matches Some(ObjectView::Commit(c)) && es[i] == (
        seen[i],
        c.message,
    ) && c.parent == (if i + 1 < seen.len() {
        Some(seen[i + 1])
    } else {
        next
    })
}

/// Whether `seen` are the commits of a chain walked so far, with entries
/// `es`, and `next` the address the chain continues at.
pub open spec fn chain(
    objs: Map<u64, Seq<u8>>,
    seen: Seq<u64>,
    es: Seq<(u64, Seq<char>)>,
    next: Option<u64>,
) -> bool {
    &&& seen.len() == es.len()
    &&& forall|i: int| 0 <= i < seen.len() ==> #[trigger] chain_link(objs, seen, es, next, i)
}

/// The position `j` of a chain: one of its commits, or where it goes on.
pub open spec fn chain_at(seen: Seq<u64>, next: Option<u64>, j: int) -> Option<u64> {
    if j < seen.len() {
        Some(seen[j])
    } else {
        next
    }
}

/// Walking a chain from position `j` passes its remaining commits, then
/// walks on from `next`.
proof fn lemma_chain_walk(
    objs: Map<u64, Seq<u8>>,
    seen: Seq<u64>,
    es: Seq<(u64, Seq<char>)>,
    next: Option<u64>,
    j: int,
    g: nat,
)
    requires
        chain(objs, seen, es, next),
        0 <= j <= seen.len(),
    ensures
        walk(objs, chain_at(seen, next, j), g + (seen.len() - j) as nat) == prepend(
            es.subrange(j, es.len() as int),
            walk(objs, next, g),
        ),
    decreases seen.len() - j,
{
    if j == seen.len() {
        match walk(objs, next, g) {
            Walk::Done(rest) => {
                assert(es.subrange(j, es.len() as int) + rest =~= rest);
            },
            _ => {},
        }
    } else {
        lemma_chain_walk(objs, seen, es, next, j + 1, g);
        assert(chain_link(objs, seen, es, next, j));
        assert(chain_at(seen, next, j + 1) == (if j + 1 < seen.len() {
            Some(seen[j + 1])
        } else {
            next
        }));
        let f = (g + (seen.len() - j)) as nat;
        assert((f - 1) as nat == g + (seen.len() - (j + 1)) as nat);
        match walk(objs, next, g) {
            Walk::Done(rest) => {
                assert(seq![es[j]] + (es.subrange(j + 1, es.len() as int) + rest) =~= es.subrange(
                    j,
                    es.len() as int,
                ) + rest);
            },
            _ => {},
        }
    }
}

/// A chain that comes back to its commit at position `j` runs out of fuel
/// from there whatever the fuel, `k` rounds of the loop at a time.
proof fn lemma_cycle_rounds(
    objs: Map<u64, Seq<u8>>,
    seen: Seq<u64>,
    es: Seq<(u64, Seq<char>)>,
    j: int,
    k: nat,
)
    requires
        0 <= j < seen.len(),
        chain(objs, seen, es, Some(seen[j])),
    ensures
        walk(objs, Some(seen[j]), k * (seen.len() - j) as nat) is OutOfFuel,
    decreases k,
{
    let l = (seen.len() - j) as nat;
    if k > 0 {
        let g = ((k - 1) * l) as nat;
        lemma_cycle_rounds(objs, seen, es, j, (k - 1) as nat);
        lemma_chain_walk(objs, seen, es, Some(seen[j]), j, g);
        assert(g + l == k * l) by (nonlinear_arith)
            requires
                k > 0,
                g == (k - 1) * l,
        ;
        assert(walk(objs, Some(seen[j]), g) is OutOfFuel);
        assert(walk(objs, Some(seen[j]), g + l) is OutOfFuel);
    } else {
        assert(k * l == 0) by (nonlinear_arith)
            requires
                k == 0,
        ;
    }
}

/// A walked chain that comes back to one of its commits never ends: the
/// history from where it started has no end.
pub proof fn lemma_cycle_never_ends(
    objs: Map<u64, Seq<u8>>,
    seen: Seq<u64>,
    es: Seq<(u64, Seq<char>)>,
    j: int,
)
    requires
        0 <= j < seen.len(),
        chain(objs, seen, es, Some(seen[j])),
    ensures
        !history_ends(objs, Some(seen[0])),
{
    let next = Some(seen[j]);
    let l = (seen.len() - j) as nat;
    let n = seen.len() as nat;
    assert forall|g: nat| walk(objs, next, g) is OutOfFuel by {
        if !(walk(objs, next, g) is OutOfFuel) {
            lemma_cycle_rounds(objs, seen, es, j, g);
            assert(g <= g * l) by (nonlinear_arith)
                requires
                    l >= 1,
            ;
            lemma_walk_fuel(objs, next, g, g * l);
        }
    }
    assert forall|fuel: nat| #[trigger] walk(objs, Some(seen[0]), fuel) is OutOfFuel by {
        lemma_chain_walk(objs, seen, es, next, 0, fuel);
        if !(walk(objs, Some(seen[0]), fuel) is OutOfFuel) {
            lemma_walk_fuel(objs, Some(seen[0]), fuel, fuel + n);
        }
    }
}

/// A walk that ended with some fuel is the history.
pub proof fn lemma_history_is(objs: Map<u64, Seq<u8>>, head: Option<u64>, fuel: nat)
    requires
        !(walk(objs, head, fuel) is OutOfFuel),
    ensures
        history_ends(objs, head),
        history(objs, head) == walk(objs, head, fuel),
{
    let c = choose|f: nat| !(#[trigger] walk(objs, head, f) is OutOfFuel);
    if c <= fuel {
        lemma_walk_fuel(objs, head, c, fuel);
    } else {
        lemma_walk_fuel(objs, head, fuel, c);
    }
}

/// The position of `k` in `seen`, if it occurs there.
fn position_of(seen: &Vec<u64>, k: u64) -> (r: Option<usize>)
    ensures
        r matches Some(i) ==> i < seen@.len() && seen@[i as int] == k,
        r is None ==> !seen@.contains(k),
{
    let mut i: usize = 0;
    while i < seen.len()
        invariant
            i <= seen@.len(),
            forall|m: int| 0 <= m < i ==> seen@[m] != k,
        decreases seen@.len() - i,
    {
        if seen[i] == k {
            return Some(i);
        }
        i = i + 1;
    }
    None
}

/// The bytes that a blob encoding holds.
pub open spec fn blob_data(b: Seq<u8>) -> Seq<u8> {
    match decode_object(b) {
        Some(ObjectView::Blob(d)) => d,
        _ => seq![],
    }
}

/// Whether a blob is stored under `a`.
pub open spec fn blob_at(objs: Map<u64, Seq<u8>>, a: u64) -> bool {
    objs.contains_key(a) && decode_object(objs[a]) is Some && decode_object(objs[a])->0 is Blob
}

/// The world of the tree `t`: each chunk read from its blob, when every
/// entry names a stored blob.
pub open spec fn tree_world(objs: Map<u64, Seq<u8>>, t: Map<(i32, i32), u64>) -> Option<
    Map<(i32, i32), Seq<u8>>,
> {
    if forall|c: (i32, i32)| #[trigger] t.contains_key(c) ==> blob_at(objs, t[c]) {
        Some(t.map_values(|a: u64| blob_data(objs[a])))
    } else {
        None
    }
}

/// The world that the commit under `h` records: its tree's chunks, each
/// read from its blob, when the commit, its tree and the blobs are stored
/// as such.
pub open spec fn commit_world(objs: Map<u64, Seq<u8>>, h: u64) -> Option<Map<(i32, i32), Seq<u8>>> {
    if objs.contains_key(h) {
        match decode_object(objs[h]) {
            Some(ObjectView::Commit(c)) => if objs.contains_key(c.tree) {
                match decode_object(objs[c.tree]) {
                    Some(ObjectView::Tree(t)) => tree_world(objs, t),
                    _ => None,
                }
            } else {
                None
            },
            _ => None,
        }
    } else {
        None
    }
}

/// The world at `head`: empty before the first commit.
pub open spec fn head_world_of(objs: Map<u64, Seq<u8>>, head: Option<u64>) -> Option<
    Map<(i32, i32), Seq<u8>>,
> {
    match head {
        None => Some(Map::empty()),
        Some(h) => commit_world(objs, h),
    }
}

/// `w` patched by `upserts` and `removals`: the removed chunks taken out,
/// the upserted chunks put in.
pub open spec fn patched(
    w: Map<(i32, i32), Seq<u8>>,
    upserts: Map<(i32, i32), Seq<u8>>,
    removals: Set<(i32, i32)>,
) -> Map<(i32, i32), Seq<u8>> {
    w.remove_keys(removals).union_prefer_right(upserts)
}

/// The contents of the `FORMAT` file of a repository in this format: `2`
/// and a newline. Repositories marked `1`, from the earlier format, are
/// not opened.
pub open spec fn format_text() -> Seq<u8> {
    seq![0x32u8, 0x0au8]
}

/// The contents to write to the `FORMAT` file of a new repository.
pub fn format_file() -> (r: Vec<u8>)
    ensures
        r@ == format_text(),
{
    let mut v: Vec<u8> = Vec::new();
    v.push(0x32u8);
    v.push(0x0au8);
    proof {
        assert(v@ =~= format_text());
    }
    v
}

/// Whether the contents of a `FORMAT` file name this format; a repository
/// in another format, or without the file, is not opened.
pub fn format_supported(contents: &[u8]) -> (r: bool)
    ensures
        r == (contents@ == format_text()),
{
    let ok = contents.len() == 2 && contents[0] == 0x32u8 && contents[1] == 0x0au8;
    proof {
        if ok {
            assert(contents@ =~= format_text());
        }
    }
    ok
}

/// The tree of a world: each chunk's coordinates mapped to the address of
/// its blob.
pub open spec fn world_tree(w: Map<(i32, i32), Seq<u8>>) -> Map<(i32, i32), u64> {
    w.map_values(|d: Seq<u8>| address_of(encode_object(ObjectView::Blob(d))))
}

/// The commit of a world.
pub open spec fn world_commit(
    w: Map<(i32, i32), Seq<u8>>,
    parent: Option<u64>,
    timestamp: u64,
    message: Seq<char>,
) -> CommitView {
    CommitView {
        tree: address_of(encode_object(ObjectView::Tree(world_tree(w)))),
        parent,
        timestamp,
        message,
    }
}

/// The objects written to commit a world, in order: its blobs by
/// increasing coordinates, its tree, then the commit.
pub open spec fn commit_writes(
    w: Map<(i32, i32), Seq<u8>>,
    parent: Option<u64>,
    timestamp: u64,
    message: Seq<char>,
) -> Seq<Seq<u8>> {
    crate::object::sorted_coords(w.dom()).map_values(
        |c: (i32, i32)| encode_object(ObjectView::Blob(w[c])),
    ) + seq![
        encode_object(ObjectView::Tree(world_tree(w))),
        encode_object(ObjectView::Commit(world_commit(w, parent, timestamp, message))),
    ]
}

/// The chunks of a world as bytes.
pub open spec fn world_view(w: Map<(i32, i32), Vec<u8>>) -> Map<(i32, i32), Seq<u8>> {
    w.map_values(|d: Vec<u8>| d@)
}

/// Calls `std::time::SystemTime::now` and reads the whole seconds since the
/// Unix epoch (`None` when the clock is before it). The clock decides the
/// result: nothing is promised of it.
#[verifier::external_body]
fn unix_seconds() -> (r: Option<u64>) {
    match std::time::SystemTime::now().duration_since(std::time::UNIX_EPOCH) {
        Ok(d) => Some(d.as_secs()),
        Err(_) => None,
    }
}

/// The object that a store read of `hash` gave: the store's error, or the
/// decoded bytes when they have the address `hash`, else
/// [`RepoError::Corrupt`].
pub fn object_from_read(hash: crate::hash::Hash, read: Result<Vec<u8>, StoreError>) -> (r: Result<
    Object,
    RepoError,
>)
    ensures
        match read {
            Err(e) => r == Err::<Object, RepoError>(RepoError::Store(e)),
            Ok(bytes) => if address_of(bytes@) != hash@ {
                r == Err::<Object, RepoError>(RepoError::Corrupt(hash))
            } else {
                match decode_object(bytes@) {
                    Some(o) => r is Ok && r->Ok_0@ == o,
                    None => r == Err::<Object, RepoError>(RepoError::Corrupt(hash)),
                }
            },
        },
{
    let bytes = match read {
        Ok(b) => b,
        Err(e) => {
            return Err(RepoError::Store(e));
        },
    };
    if hash.verify(bytes.as_slice()).is_err() {
        return Err(RepoError::Corrupt(hash));
    }
    match Object::from_bytes(bytes.as_slice()) {
        Ok(o) => Ok(o),
        Err(_) => Err(RepoError::Corrupt(hash)),
    }
}

impl<S: ObjectStore> Repository<S> {
    /// The objects of the repository's store.
    pub open spec fn objects(&self) -> Map<u64, Seq<u8>> {
        self.backend().objects()
    }

    /// The current head commit's address.
    pub open spec fn head_value(&self) -> Option<u64> {
        option_address(self.current_head())
    }

    /// The current head commit.
    pub closed spec fn current_head(&self) -> Option<crate::hash::Hash> {
        self.head
    }

    /// The repository root.
    pub closed spec fn root_path(&self) -> std::path::PathBuf {
        self.root
    }

    /// The object store.
    pub closed spec fn backend(&self) -> S {
        self.store
    }

    /// A new repository at `root` with no commit, storing objects in
    /// `store`; the caller creates the directory layout.
    pub fn init_with(store: S, root: std::path::PathBuf) -> (r: Self)
        ensures
            r.backend() == store,
            r.root_path() == root,
            r.current_head() == None::<crate::hash::Hash>,
    {
        Repository { root, store, head: None }
    }

    /// Whether `r` is what opening the repository at `root` over `store`
    /// gives when its `HEAD` file holds `contents`: trimmed of whitespace,
    /// nothing means no commit, sixteen hex digits name the head commit,
    /// and anything else is [`RepoError::BadHead`].
    pub open spec fn opened(
        store: S,
        root: std::path::PathBuf,
        contents: Seq<char>,
        r: Result<Self, RepoError>,
    ) -> bool {
        let t = vstd::utf8::encode_utf8(crate::text::trimmed(contents));
        &&& t.len() == 0 ==> r is Ok && r->Ok_0.current_head() == None::<crate::hash::Hash>
        &&& t.len() != 0 && t.len() != 16 ==> r == Err::<Self, RepoError>(
            RepoError::BadHead(crate::hash::ParseHashError::InvalidLength),
        )
        &&& t.len() == 16 && !crate::hash::hash_text_valid(t) ==> r == Err::<Self, RepoError>(
            RepoError::BadHead(crate::hash::ParseHashError::InvalidDigit),
        )
        &&& t.len() == 16 && crate::hash::hash_text_valid(t) ==> (r is Ok && (
        r->Ok_0.current_head() matches Some(h) && h.0@ == crate::hash::hash_text_bytes(t)))
        &&& r matches Ok(repo) ==> repo.backend() == store && repo.root_path() == root
    }

    /// Opens the repository at `root` whose `HEAD` file holds
    /// `head_contents`: nothing (after trimming whitespace) for a
    /// repository without commits, else a commit address in hex.
    pub fn open_with(store: S, root: std::path::PathBuf, head_contents: &str) -> (r: Result<
        Self,
        RepoError,
    >)
        ensures
            Self::opened(store, root, head_contents@, r),
    {
        let text = crate::text::trim(head_contents);
        if text.as_bytes().len() == 0 {
            return Ok(Repository { root, store, head: None });
        }
        match crate::hash::parse_hash(text) {
            Ok(h) => Ok(Repository { root, store, head: Some(h) }),
            Err(e) => Err(RepoError::BadHead(e)),
        }
    }

    /// The current HEAD commit, if any.
    pub fn head(&self) -> (r: Option<crate::hash::Hash>)
        ensures
            r == self.current_head(),
    {
        self.head
    }

    /// Points HEAD at `head`, as when the caller could not record a commit
    /// in the `HEAD` file and restores the previous head.
    pub fn set_head(&mut self, head: Option<crate::hash::Hash>)
        ensures
            final(self).current_head() == head,
            final(self).backend() == old(self).backend(),
            final(self).root_path() == old(self).root_path(),
    {
        self.head = head;
    }

    /// The repository root directory.
    pub fn root(&self) -> (r: &std::path::PathBuf)
        ensures
            *r == self.root_path(),
    {
        &self.root
    }

    /// The object store backing this repository.
    pub fn store(&self) -> (r: &S)
        ensures
            *r == self.backend(),
    {
        &self.store
    }

    /// Reads and decodes the object under `hash`, checking its address
    /// again whatever the store promises.
    fn read_object(&self, hash: crate::hash::Hash) -> (r: Result<Object, RepoError>)
        ensures
            r matches Ok(o) ==> self.objects().contains_key(hash@) && decode_object(
                self.objects()[hash@],
            ) == Some(o@),
            !self.objects().contains_key(hash@) ==> r is Err,
            self.objects().contains_key(hash@) && decode_object(self.objects()[hash@]) is None
                ==> r is Err,
            r matches Err(e) ==> (e is Store || (e == RepoError::Corrupt(hash)
                && self.objects().contains_key(hash@) && decode_object(self.objects()[hash@])
                is None)),
            self.backend().infallible() && r is Err ==> !self.objects().contains_key(hash@)
                || decode_object(self.objects()[hash@]) is None,
    {
        object_from_read(hash, self.store.read(hash))
    }

    /// Walks the commit history from HEAD, newest first.
    pub fn log(&self) -> (r: Result<Vec<LogEntry>, RepoError>)
        requires
            history_ends(self.objects(), self.head_value()),
        ensures
            r matches Ok(v) ==> history(self.objects(), self.head_value()) == Walk::Done(
                entries_view(v@),
            ),
            history(self.objects(), self.head_value()) is Broken ==> r is Err,
            r matches Err(e) ==> (e is Store || history(self.objects(), self.head_value())
                is Broken),
            self.head_value() is None ==> (r matches Ok(v) && v@.len() == 0),
            self.backend().infallible() && !(history(self.objects(), self.head_value()) is Broken)
                ==> r is Ok,
    {
        let ghost objs = self.objects();
        let ghost hv = self.head_value();
        let ghost fuel = choose|fuel: nat| !(#[trigger] walk(objs, hv, fuel) is OutOfFuel);
        let mut entries: Vec<LogEntry> = Vec::new();
        let mut current = self.head;
        let ghost mut left: nat = fuel;
        proof {
            assert(entries_view(entries@) =~= Seq::<(u64, Seq<char>)>::empty());
            assert(walk(objs, hv, fuel) == prepend(entries_view(entries@), walk(objs, hv, fuel)))
                by {
                match walk(objs, hv, fuel) {
                    Walk::Done(rest) => {
                        assert(Seq::<(u64, Seq<char>)>::empty() + rest =~= rest);
                    },
                    _ => {},
                }
            }
        }
        loop
            invariant
                objs == self.objects(),
                hv == self.head_value(),
                history(objs, hv) == walk(objs, hv, fuel),
                walk(objs, hv, fuel) == prepend(
                    entries_view(entries@),
                    walk(objs, option_address(current), left),
                ),
                !(walk(objs, option_address(current), left) is OutOfFuel),
                hv is None ==> current is None && entries@.len() == 0,
            ensures
                current is None,
                hv is None ==> entries@.len() == 0,
            decreases left,
        {
            let hash = match current {
                Some(h) => h,
                None => {
                    break;
                },
            };
            let obj = match self.read_object(hash) {
                Ok(o) => o,
                Err(e) => {
                    proof {
                        if self.backend().infallible() {
                            assert(walk(objs, Some(hash@), left) is Broken);
                        }
                    }
                    return Err(e);
                },
            };
            match obj {
                Object::Commit(c) => {
                    let ghost rest = walk(objs, option_address(c.parent), (left - 1) as nat);
                    let ghost before = entries_view(entries@);
                    entries.push(LogEntry { hash, message: c.message });
                    current = c.parent;
                    proof {
                        assert(entries_view(entries@) =~= before.push((hash@, c@.message)));
                        match rest {
                            Walk::Done(es) => {
                                assert(before + (seq![(hash@, c@.message)] + es) =~= entries_view(
                                    entries@,
                                ) + es);
                            },
                            _ => {},
                        }
                        left = (left - 1) as nat;
                    }
                },
                _ => {
                    return Err(RepoError::NotACommit(hash));
                },
            }
        }
        proof {
            assert(entries_view(entries@) + Seq::<(u64, Seq<char>)>::empty() =~= entries_view(
                entries@,
            ));
        }
        Ok(entries)
    }

    /// Walks the commit history from HEAD, newest first, as
    /// [`Repository::log`] does, and stops with [`RepoError::HistoryCycle`]
    /// where the parent chain comes back to a commit it has passed, a chain
    /// that never ends. The store's addresses are listed first, and the
    /// walk passes each at most once.
    pub fn log_checked(&self) -> (r: Result<Vec<LogEntry>, RepoError>)
        ensures
            r matches Ok(v) ==> history_ends(self.objects(), self.head_value()) && history(
                self.objects(),
                self.head_value(),
            ) == Walk::Done(entries_view(v@)),
            r matches Err(RepoError::HistoryCycle(_)) ==> !history_ends(
                self.objects(),
                self.head_value(),
            ),
            history_ends(self.objects(), self.head_value()) && history(
                self.objects(),
                self.head_value(),
            ) is Broken ==> r is Err,
            r matches Err(e) ==> (e is Store || e is HistoryCycle || (history_ends(
                self.objects(),
                self.head_value(),
            ) && history(self.objects(), self.head_value()) is Broken)),
            self.head_value() is None ==> (r matches Ok(v) && v@.len() == 0),
            self.backend().infallible() && history_ends(self.objects(), self.head_value())
                && !(history(self.objects(), self.head_value()) is Broken) ==> r is Ok,
    {
        let ghost objs = self.objects();
        let ghost hv = self.head_value();
        if self.head.is_none() {
            let entries: Vec<LogEntry> = Vec::new();
            proof {
                lemma_history_is(objs, hv, 0);
                assert(entries_view(entries@) =~= Seq::<(u64, Seq<char>)>::empty());
            }
            return Ok(entries);
        }
        let hashes = match self.store.list() {
            Ok(v) => v,
            Err(e) => {
                return Err(RepoError::Store(e));
            },
        };
        proof {
            let keys = hashes@.map_values(|h: crate::hash::Hash| h@);
            assert forall|k: u64| objs.dom().contains(k) implies keys.to_set().contains(k) by {
                assert(crate::opfs_cache::listed(hashes@, k));
                let j = choose|j: int| 0 <= j < hashes@.len() && (#[trigger] hashes@[j])@ == k;
                assert(keys[j] == k);
            }
            vstd::set_lib::lemma_len_subset(objs.dom(), keys.to_set());
        }
        let mut entries: Vec<LogEntry> = Vec::new();
        let mut seen: Vec<u64> = Vec::new();
        let mut current = self.head;
        proof {
            assert(entries_view(entries@) =~= Seq::<(u64, Seq<char>)>::empty());
        }
        loop
            invariant
                objs == self.objects(),
                hv == self.head_value(),
                hv is Some,
                objs.dom().finite(),
                chain(objs, seen@, entries_view(entries@), option_address(current)),
                seen@.len() == 0 ==> option_address(current) == hv,
                seen@.len() > 0 ==> hv == Some(seen@[0]),
                seen@.no_duplicates(),
                forall|i: int| 0 <= i < seen@.len() ==> objs.contains_key(#[trigger] seen@[i]),
            ensures
                current is None,
                chain(objs, seen@, entries_view(entries@), None),
                seen@.len() == 0 ==> hv is None,
                seen@.len() > 0 ==> hv == Some(seen@[0]),
            decreases objs.dom().len() - seen@.len(),
        {
            let hash = match current {
                Some(h) => h,
                None => {
                    break;
                },
            };
            let k = hash.to_u64();
            let ghost es = entries_view(entries@);
            let ghost seen0 = seen@;
            let ghost n = seen@.len();
            match position_of(&seen, k) {
                Some(i) => {
                    proof {
                        lemma_cycle_never_ends(objs, seen@, es, i as int);
                    }
                    return Err(RepoError::HistoryCycle(hash));
                },
                None => {},
            }
            let obj = match self.read_object(hash) {
                Ok(o) => o,
                Err(e) => {
                    proof {
                        if !(e is Store) || self.backend().infallible() {
                            lemma_chain_walk(objs, seen@, es, Some(k), 0, 1);
                            lemma_history_is(objs, hv, 1 + n);
                        }
                    }
                    return Err(e);
                },
            };
            match obj {
                Object::Commit(c) => {
                    let ghost cv = c@;
                    entries.push(LogEntry { hash, message: c.message });
                    seen.push(k);
                    current = c.parent;
                    proof {
                        let es1 = entries_view(entries@);
                        assert(es1 =~= es.push((k, cv.message)));
                        assert forall|i: int| 0 <= i < seen@.len() implies #[trigger] chain_link(
                            objs,
                            seen@,
                            es1,
                            option_address(current),
                            i,
                        ) by {
                            if i < n {
                                assert(chain_link(objs, seen0, es, Some(k), i));
                                assert(seen@[i] == seen0[i]);
                            }
                        }
                        assert(seen@ == seen0.push(k));
                        assert(seen@.no_duplicates());
                        assert(seen@.to_set().subset_of(objs.dom()));
                        seen@.unique_seq_to_set();
                        vstd::set_lib::lemma_len_subset(seen@.to_set(), objs.dom());
                    }
                },
                _ => {
                    proof {
                        lemma_chain_walk(objs, seen@, es, Some(k), 0, 1);
                        lemma_history_is(objs, hv, 1 + n);
                    }
                    return Err(RepoError::NotACommit(hash));
                },
            }
        }
        proof {
            let es = entries_view(entries@);
            lemma_chain_walk(objs, seen@, es, None, 0, 0);
            lemma_history_is(objs, hv, seen@.len() as nat);
            assert(es.subrange(0, es.len() as int) + Seq::<(u64, Seq<char>)>::empty() =~= es);
        }
        Ok(entries)
    }

    /// The world that HEAD records: empty before the first commit, else
    /// the chunks of the head commit's tree, each read from its blob.
    pub fn head_world(&self) -> (r: Result<World, RepoError>)
        ensures
            r matches Ok(w) ==> head_world_of(self.objects(), self.head_value()) == Some(
                world_view(w@),
            ),
            self.head_value() is None ==> r is Ok,
            r matches Err(e) ==> (e is Store || head_world_of(self.objects(), self.head_value())
                is None),
            self.backend().infallible() && head_world_of(self.objects(), self.head_value()) is Some
                ==> r is Ok,
    {
        let ghost objs = self.objects();
        let mut world: World = BTreeMap::new();
        let head = match self.head {
            Some(h) => h,
            None => {
                proof {
                    assert(world_view(world@) =~= Map::<(i32, i32), Seq<u8>>::empty());
                }
                return Ok(world);
            },
        };
        let commit = match self.read_object(head) {
            Ok(Object::Commit(c)) => c,
            Ok(_) => {
                return Err(RepoError::NotACommit(head));
            },
            Err(e) => {
                return Err(e);
            },
        };
        let tree = match self.read_object(commit.tree) {
            Ok(Object::Tree(t)) => t,
            Ok(_) => {
                return Err(RepoError::WrongKind(commit.tree));
            },
            Err(e) => {
                return Err(e);
            },
        };
        let ghost t = crate::object::tree_view(tree@);
        proof {
            crate::object::lemma_coords_ordered();
        }
        let ghost s = vstd::std_specs::iter::IteratorSpec::remaining(
            &vstd::std_specs::btree::spec_btree_map_iter(&tree),
        );
        let ghost keys = s.map_values(|kv: (&(i32, i32), &crate::hash::Hash)| *kv.0);
        let entries = tree.iter();
        proof {
            crate::object::lemma_iter_entries(tree, s);
        }
        for kv in it: entries
            invariant
                it.seq() == s,
                self.head_value() is Some,
                keys == s.map_values(|kv: (&(i32, i32), &crate::hash::Hash)| *kv.0),
                objs == self.objects(),
                t == crate::object::tree_view(tree@),
                head_world_of(objs, self.head_value()) == tree_world(objs, t),
                forall|j: int| 0 <= j < s.len() ==> tree@.contains_key(*(#[trigger] s[j]).0)
                    && tree@[*s[j].0] == *s[j].1,
                forall|c: (i32, i32)|
                    world@.contains_key(c) <==> (exists|j: int|
                        0 <= j < it.index() && #[trigger] keys[j] == c),
                forall|c: (i32, i32)| #[trigger]
                    world@.contains_key(c) ==> t.contains_key(c) && blob_at(objs, t[c])
                        && world@[c]@ == blob_data(objs[t[c]]),
        {
            let (c, a) = kv;
            let ghost i = it.index();
            proof {
                assert(keys[i] == *c);
                assert(tree@.contains_key(*c) && tree@[*c] == *a);
                assert(t.contains_key(*c) && t[*c] == a@);
            }
            let data = match self.read_object(*a) {
                Ok(Object::Blob(d)) => d,
                Ok(_) => {
                    proof {
                        assert(!blob_at(objs, t[*c]));
                    }
                    return Err(RepoError::WrongKind(*a));
                },
                Err(e) => {
                    proof {
                        assert(!(e is Store) || self.backend().infallible() ==> !blob_at(objs, t[*c]));
                    }
                    return Err(e);
                },
            };
            world.insert(*c, data);
            proof {
                assert forall|x: (i32, i32)|
                    world@.contains_key(x) <==> (exists|j: int| 0 <= j < i + 1 && #[trigger] keys[j] == x) by {
                    if x == *c {
                        assert(keys[i] == x);
                    }
                }
            }
        }
        proof {
            crate::object::lemma_sorted_coords(tree@.dom());
            assert forall|c: (i32, i32)| #[trigger] t.contains_key(c) implies blob_at(objs, t[c]) by {
                assert(keys.to_set().contains(c));
                let j = choose|j: int| 0 <= j < keys.len() && keys[j] == c;
                assert(world@.contains_key(c));
            }
            assert(world_view(world@) =~= t.map_values(|a: u64| blob_data(objs[a])));
        }
        Ok(world)
    }

    /// Whether `after` is this repository once `world` is committed with
    /// `message` at `timestamp` as the commit `h`: its blobs, tree and
    /// commit are written in order and HEAD points at the commit.
    pub open spec fn committed(
        self,
        after: Self,
        world: Map<(i32, i32), Seq<u8>>,
        message: Seq<char>,
        timestamp: u64,
        h: crate::hash::Hash,
    ) -> bool {
        &&& after.objects() == stored_after_writes(
            self.objects(),
            commit_writes(world, self.head_value(), timestamp, message),
        )
        &&& h@ == address_of(
            encode_object(
                ObjectView::Commit(world_commit(world, self.head_value(), timestamp, message)),
            ),
        )
        &&& after.current_head() == Some(h)
        &&& after.root_path() == self.root_path()
    }

    /// Creates a commit of `world` at `timestamp` (Unix seconds), updating
    /// HEAD. Blobs and trees are content-addressed, so unchanged chunks are
    /// stored once.
    pub fn commit_at(&mut self, world: &World, message: &str, timestamp: u64) -> (r: Result<
        crate::hash::Hash,
        RepoError,
    >)
        ensures
            r matches Ok(h) ==> old(self).committed(
                *final(self),
                world_view(world@),
                message@,
                timestamp,
                h,
            ),
            r is Err ==> final(self).current_head() == old(self).current_head()
                && final(self).root_path() == old(self).root_path(),
            r matches Err(e) ==> e is Store,
            old(self).backend().infallible() ==> r is Ok && final(self).backend().infallible(),
    {
        let ghost w = world_view(world@);
        let ghost objs0 = self.objects();
        let ghost parent = self.head_value();
        let ghost writes = commit_writes(w, parent, timestamp, message@);
        let ghost blobs = crate::object::sorted_coords(w.dom()).map_values(
            |c: (i32, i32)| encode_object(ObjectView::Blob(w[c])),
        );
        proof {
            crate::object::lemma_coords_ordered();
        }
        let ghost s = vstd::std_specs::iter::IteratorSpec::remaining(
            &vstd::std_specs::btree::spec_btree_map_iter(world),
        );
        let ghost keys = s.map_values(|kv: (&(i32, i32), &Vec<u8>)| *kv.0);
        let mut tree: BTreeMap<(i32, i32), crate::hash::Hash> = BTreeMap::new();
        let chunks = world.iter();
        proof {
            crate::object::lemma_iter_entries(*world, s);
            assert(w.dom() =~= world@.dom());
        }
        for kv in it: chunks
            invariant
                it.seq() == s,
                keys == s.map_values(|kv: (&(i32, i32), &Vec<u8>)| *kv.0),
                crate::object::coords_ordered(),
                w == world_view(world@),
                blobs == crate::object::sorted_coords(w.dom()).map_values(
                    |c: (i32, i32)| encode_object(ObjectView::Blob(w[c])),
                ),
                keys == crate::object::sorted_coords(w.dom()),
                forall|j: int| 0 <= j < s.len() ==> world@.contains_key(*(#[trigger] s[j]).0)
                    && world@[*s[j].0] == *s[j].1,
                self.objects() == stored_after_writes(objs0, blobs.take(it.index())),
                self.head_value() == parent,
                self.current_head() == old(self).current_head(),
                self.root_path() == old(self).root_path(),
                old(self).backend().infallible() ==> self.backend().infallible(),
                forall|c: (i32, i32)|
                    tree@.contains_key(c) <==> (exists|j: int|
                        0 <= j < it.index() && #[trigger] keys[j] == c),
                forall|c: (i32, i32)| #[trigger]
                    tree@.contains_key(c) ==> tree@[c]@ == world_tree(w)[c],
        {
            let (c, data) = kv;
            let bytes = Object::Blob(crate::codec::to_vec(data.as_slice())).to_bytes();
            let h = match self.store.write(bytes.as_slice()) {
                Ok(h) => h,
                Err(e) => {
                    return Err(RepoError::Store(e));
                },
            };
            let ghost i = it.index();
            proof {
                assert(keys[i] == *c);
                assert(world@.contains_key(*c) && world@[*c] == *data);
                assert(w[*c] == data@);
                assert(blobs[i] == bytes@);
                assert(blobs.take(i + 1).drop_last() =~= blobs.take(i));
            }
            tree.insert(*c, h);
            proof {
                assert forall|x: (i32, i32)|
                    tree@.contains_key(x) <==> (exists|j: int| 0 <= j < i + 1 && #[trigger] keys[j] == x) by {
                    if x == *c {
                        assert(keys[i] == x);
                    }
                }
            }
        }
        proof {
            assert(blobs.take(blobs.len() as int) =~= blobs);
            let m = world_tree(w);
            assert forall|c: (i32, i32)| #[trigger] tree@.contains_key(c) == m.contains_key(c) by {
                if tree@.contains_key(c) {
                    let j = choose|j: int| 0 <= j < s.len() && #[trigger] keys[j] == c;
                    assert(keys.to_set().contains(keys[j]));
                }
                if m.contains_key(c) {
                    assert(w.dom() =~= world@.dom());
                    crate::object::lemma_sorted_coords(w.dom());
                    assert(keys.to_set().contains(c));
                    let j = choose|j: int| 0 <= j < keys.len() && keys[j] == c;
                    assert(keys[j] == c);
                }
            }
            assert(crate::object::tree_view(tree@) =~= m);
        }
        let ghost objs_blobs = self.objects();
        let tree_bytes = Object::Tree(tree).to_bytes();
        let tree_hash = match self.store.write(tree_bytes.as_slice()) {
            Ok(h) => h,
            Err(e) => {
                return Err(RepoError::Store(e));
            },
        };
        let commit = Commit {
            tree: tree_hash,
            parent: self.head,
            timestamp,
            message: message.to_owned(),
        };
        let ghost objs_tree = self.objects();
        let ghost cv = commit@;
        let commit_bytes = Object::Commit(commit).to_bytes();
        let commit_hash = match self.store.write(commit_bytes.as_slice()) {
            Ok(h) => h,
            Err(e) => {
                return Err(RepoError::Store(e));
            },
        };
        self.head = Some(commit_hash);
        proof {
            let tree_enc = encode_object(ObjectView::Tree(world_tree(w)));
            let wc = world_commit(w, parent, timestamp, message@);
            let commit_enc = encode_object(ObjectView::Commit(wc));
            assert(tree_bytes@ == tree_enc);
            assert(cv == wc);
            assert(commit_bytes@ == commit_enc);
            let pre = blobs + seq![tree_enc];
            assert(writes =~= pre + seq![commit_enc]);
            assert(writes.drop_last() =~= pre);
            assert(writes.last() == commit_enc);
            assert(pre.drop_last() =~= blobs);
            assert(pre.last() == tree_enc);
            assert(objs_blobs == stored_after_writes(objs0, blobs));
            assert(objs_tree == crate::store::stored_after_write(objs_blobs, tree_enc));
            assert(stored_after_writes(objs0, pre) == objs_tree);
            assert(self.objects() == crate::store::stored_after_write(objs_tree, commit_enc));
        }
        Ok(commit_hash)
    }

    /// Creates a commit from `world` at the time `now` that a read of the
    /// system clock gave (Unix seconds; `None` when the clock is before the
    /// epoch): the commit's timestamp is that reading.
    pub fn commit_with_clock(&mut self, world: &World, message: &str, now: Option<u64>) -> (r:
        Result<crate::hash::Hash, RepoError>)
        ensures
            now is None ==> r == Err::<crate::hash::Hash, RepoError>(RepoError::ClockBeforeEpoch)
                && *final(self) == *old(self),
            now matches Some(t) ==> (r matches Ok(h) ==> old(self).committed(
                *final(self),
                world_view(world@),
                message@,
                t,
                h,
            )),
            r is Err ==> final(self).current_head() == old(self).current_head()
                && final(self).root_path() == old(self).root_path(),
            r matches Err(e) ==> (e is Store || (e == RepoError::ClockBeforeEpoch && now is None)),
            now is Some && old(self).backend().infallible() ==> r is Ok
                && final(self).backend().infallible(),
    {
        match now {
            Some(t) => self.commit_at(world, message, t),
            None => Err(RepoError::ClockBeforeEpoch),
        }
    }

    /// Creates a commit from `world`, updating HEAD, with the current time
    /// of the system clock as its timestamp (see
    /// [`Repository::commit_with_clock`]).
    ///
    /// Blobs and trees are content-addressed, so unchanged chunks are
    /// deduplicated automatically.
    pub fn commit(&mut self, world: &World, message: &str) -> (r: Result<
        crate::hash::Hash,
        RepoError,
    >)
        ensures
            r matches Ok(h) ==> exists|t: u64|
                old(self).committed(*final(self), world_view(world@), message@, t, h),
            r is Err ==> final(self).current_head() == old(self).current_head()
                && final(self).root_path() == old(self).root_path(),
            r matches Err(e) ==> (e is Store || e == RepoError::ClockBeforeEpoch),
            r == Err::<crate::hash::Hash, RepoError>(RepoError::ClockBeforeEpoch) ==> *final(self)
                == *old(self),
            old(self).backend().infallible() ==> (r is Ok || r == Err::<
                crate::hash::Hash,
                RepoError,
            >(RepoError::ClockBeforeEpoch)),
    {
        self.commit_with_clock(world, message, unix_seconds())
    }

    /// Commits the world of HEAD patched by the staged `changes` (see
    /// [`patched`]) at the time `now` that a read of the system clock gave
    /// (Unix seconds; `None` when the clock is before the epoch): the
    /// commit's timestamp is that reading.
    pub fn commit_changes_with_clock(
        &mut self,
        changes: &crate::staging::ChangeSet,
        message: &str,
        now: Option<u64>,
    ) -> (r: Result<crate::hash::Hash, RepoError>)
        ensures
            r is Ok ==> head_world_of(old(self).objects(), old(self).head_value()) is Some
                && now is Some,
            r matches Ok(h) ==> old(self).committed(
                *final(self),
                patched(
                    head_world_of(old(self).objects(), old(self).head_value())->Some_0,
                    world_view(changes.upserts@),
                    changes.removals@,
                ),
                message@,
                now->Some_0,
                h,
            ),
            head_world_of(old(self).objects(), old(self).head_value()) is None ==> r is Err,
            r is Err ==> final(self).current_head() == old(self).current_head()
                && final(self).root_path() == old(self).root_path(),
            r matches Err(e) ==> (e is Store || (e == RepoError::ClockBeforeEpoch && now is None)
                || head_world_of(old(self).objects(), old(self).head_value()) is None),
            old(self).backend().infallible() && now is Some && head_world_of(
                old(self).objects(),
                old(self).head_value(),
            ) is Some ==> r is Ok,
            old(self).backend().infallible() && now is None && head_world_of(
                old(self).objects(),
                old(self).head_value(),
            ) is Some ==> r == Err::<crate::hash::Hash, RepoError>(RepoError::ClockBeforeEpoch),
    {
        let mut world = match self.head_world() {
            Ok(w) => w,
            Err(e) => {
                return Err(e);
            },
        };
        let ghost w0 = world_view(world@);
        proof {
            crate::object::lemma_coords_ordered();
        }
        let ghost rs = vstd::std_specs::iter::IteratorSpec::remaining(
            &vstd::std_specs::btree::spec_btree_keys_iter(&changes.removals),
        );
        let removals = changes.removals.iter();
        proof {
            assert(w0.remove_keys(rs.unref().take(0).to_set()) =~= w0);
        }
        for c in it: removals
            invariant
                it.seq() == rs,
                crate::object::coords_ordered(),
                world_view(world@) == w0.remove_keys(rs.unref().take(it.index()).to_set()),
        {
            let ghost i = it.index();
            let ghost before = world@;
            world.remove(c);
            proof {
                assert(world@ == before.remove(*c));
                assert(world_view(world@) =~= world_view(before).remove(*c));
                assert(rs.unref()[i] == *c);
                assert(rs.unref().take(i + 1) =~= rs.unref().take(i).push(*c));
                rs.unref().take(i).lemma_push_to_set_commute(*c);
                assert(world_view(world@) =~= w0.remove_keys(rs.unref().take(i + 1).to_set()));
            }
        }
        let ghost w1 = world_view(world@);
        proof {
            assert(rs.unref().take(rs.len() as int) =~= rs.unref());
            assert(w1 == w0.remove_keys(changes.removals@));
        }
        let ghost up = world_view(changes.upserts@);
        let ghost s = vstd::std_specs::iter::IteratorSpec::remaining(
            &vstd::std_specs::btree::spec_btree_map_iter(&changes.upserts),
        );
        let ghost keys = s.map_values(|kv: (&(i32, i32), &Vec<u8>)| *kv.0);
        let upserts = changes.upserts.iter();
        proof {
            crate::object::lemma_iter_entries(changes.upserts, s);
            assert(w1.union_prefer_right(up.restrict(keys.take(0).to_set())) =~= w1);
        }
        for kv in it: upserts
            invariant
                it.seq() == s,
                keys == s.map_values(|kv: (&(i32, i32), &Vec<u8>)| *kv.0),
                crate::object::coords_ordered(),
                up == world_view(changes.upserts@),
                forall|j: int| 0 <= j < s.len() ==> changes.upserts@.contains_key(
                    *(#[trigger] s[j]).0,
                ) && changes.upserts@[*s[j].0] == *s[j].1,
                world_view(world@) == w1.union_prefer_right(
                    up.restrict(keys.take(it.index()).to_set()),
                ),
        {
            let (c, d) = kv;
            let ghost i = it.index();
            proof {
                assert(keys[i] == *c);
                assert(changes.upserts@.contains_key(*c) && changes.upserts@[*c] == *d);
            }
            let ghost before = world@;
            let v = crate::codec::to_vec(d.as_slice());
            world.insert(*c, v);
            proof {
                assert(world@ == before.insert(*c, v));
                assert(up[*c] == d@);
                assert(world_view(world@) =~= world_view(before).insert(*c, d@));
                assert(keys.take(i + 1) =~= keys.take(i).push(*c));
                keys.take(i).lemma_push_to_set_commute(*c);
                assert(world_view(world@) =~= w1.union_prefer_right(
                    up.restrict(keys.take(i + 1).to_set()),
                ));
            }
        }
        proof {
            crate::object::lemma_sorted_coords(changes.upserts@.dom());
            assert(keys.take(keys.len() as int) =~= keys);
            assert(up.restrict(keys.to_set()) =~= up);
            assert(world_view(world@) =~= patched(w0, up, changes.removals@));
            assert(head_world_of(old(self).objects(), old(self).head_value()) == Some(w0));
        }
        let r = self.commit_with_clock(&world, message, now);
        proof {
            let w = head_world_of(old(self).objects(), old(self).head_value())->Some_0;
            assert(w == w0);
        }
        r
    }

    /// Commits the world of HEAD patched by the staged `changes` (see
    /// [`patched`]), with the current time of the system clock as its
    /// timestamp (see [`Repository::commit_changes_with_clock`]).
    pub fn commit_changes(&mut self, changes: &crate::staging::ChangeSet, message: &str) -> (r:
        Result<crate::hash::Hash, RepoError>)
        ensures
            r is Ok ==> head_world_of(old(self).objects(), old(self).head_value()) is Some,
            r matches Ok(h) ==> exists|t: u64|
                old(self).committed(
                    *final(self),
                    patched(
                        head_world_of(old(self).objects(), old(self).head_value())->Some_0,
                        world_view(changes.upserts@),
                        changes.removals@,
                    ),
                    message@,
                    t,
                    h,
                ),
            head_world_of(old(self).objects(), old(self).head_value()) is None ==> r is Err,
            r is Err ==> final(self).current_head() == old(self).current_head()
                && final(self).root_path() == old(self).root_path(),
            r matches Err(e) ==> (e is Store || e == RepoError::ClockBeforeEpoch || head_world_of(
                old(self).objects(),
                old(self).head_value(),
            ) is None),
            old(self).backend().infallible() && head_world_of(
                old(self).objects(),
                old(self).head_value(),
            ) is Some ==> (r is Ok || r == Err::<crate::hash::Hash, RepoError>(
                RepoError::ClockBeforeEpoch,
            )),
    {
        let now = unix_seconds();
        let r = self.commit_changes_with_clock(changes, message, now);
        proof {
            if let Ok(h) = r {
                let t = now->Some_0;
                assert(old(self).committed(
                    *self,
                    patched(
                        head_world_of(old(self).objects(), old(self).head_value())->Some_0,
                        world_view(changes.upserts@),
                        changes.removals@,
                    ),
                    message@,
                    t,
                    h,
                ));
            }
        }
        r
    }

    /// Reopening gives back the head: opening with a `HEAD` file that holds
    /// the hex text of `h`, as [`crate::hash::Hash::to_hex`] writes it, with
    /// any whitespace around it, gives a repository whose HEAD is `h`.
    pub proof fn lemma_reopen_gives_head(
        store: S,
        root: std::path::PathBuf,
        h: crate::hash::Hash,
        contents: Seq<char>,
        r: Result<Self, RepoError>,
    )
        requires
            crate::text::trimmed(contents) == crate::text::byte_chars(crate::hash::hex_text(h.0@)),
            Self::opened(store, root, contents, r),
        ensures
            r matches Ok(repo) && repo.current_head() == Some(h) && repo.backend() == store
                && repo.root_path() == root,
    {
        let hex = crate::hash::hex_text(h.0@);
        crate::hash::lemma_hex_text_is_ascii(h.0@);
        crate::text::lemma_ascii_bytes_utf8(hex);
        crate::hash::lemma_parse_hash_of_to_hex(h);
        let g = r->Ok_0.current_head()->Some_0;
        assert(g.0 =~= h.0);
    }

    /// A read gives back a write: once `w` is committed as `h`, the world
    /// at the new HEAD is `w`. Only an address collision, another object
    /// already stored under the address of one of the written objects, is
    /// left out.
    pub proof fn lemma_committed_world_reads_back(
        r0: Self,
        r1: Self,
        w: Map<(i32, i32), Seq<u8>>,
        message: Seq<char>,
        timestamp: u64,
        h: crate::hash::Hash,
    )
        requires
            r0.committed(r1, w, message, timestamp, h),
            w.dom().finite(),
            w.dom().len() <= u64::MAX,
            forall|c: (i32, i32)| #[trigger] w.contains_key(c) ==> w[c].len() <= u64::MAX,
            vstd::utf8::encode_utf8(message).len() <= u64::MAX,
            ({
                let writes = commit_writes(w, r0.head_value(), timestamp, message);
                forall|i: int|
                    0 <= i < writes.len() ==> r1.objects()[address_of(#[trigger] writes[i])]
                        == writes[i]
            }),
        ensures
            head_world_of(r1.objects(), r1.head_value()) == Some(w),
            r1.objects().contains_key(h@),
            decode_object(r1.objects()[h@]) == Some(
                ObjectView::Commit(world_commit(w, r0.head_value(), timestamp, message)),
            ),
            world_commit(w, r0.head_value(), timestamp, message).parent == r0.head_value(),
            world_commit(w, r0.head_value(), timestamp, message).message == message,
            r1.objects().contains_key(world_commit(w, r0.head_value(), timestamp, message).tree),
            decode_object(
                r1.objects()[world_commit(w, r0.head_value(), timestamp, message).tree],
            ) == Some(ObjectView::Tree(world_tree(w))),
    {
        let parent = r0.head_value();
        let writes = commit_writes(w, parent, timestamp, message);
        let objs = r1.objects();
        let keys = crate::object::sorted_coords(w.dom());
        let n = writes.len() as int;
        let tv = world_tree(w);
        let cv = world_commit(w, parent, timestamp, message);
        lemma_writes_stored(r0.objects(), writes);
        crate::object::lemma_sorted_coords(w.dom());
        assert(tv.dom() =~= w.dom());
        crate::object::lemma_decode_encode(ObjectView::Tree(tv));
        crate::object::lemma_decode_encode(ObjectView::Commit(cv));
        assert(writes[n - 1] == encode_object(ObjectView::Commit(cv)));
        assert(writes[n - 2] == encode_object(ObjectView::Tree(tv)));
        assert(objs.contains_key(address_of(writes[n - 1])));
        assert(objs.contains_key(address_of(writes[n - 2])));
        assert(r1.head_value() == Some(h@));
        assert forall|c: (i32, i32)| #[trigger] tv.contains_key(c) implies blob_at(objs, tv[c])
            && blob_data(objs[tv[c]]) == w[c] by {
            assert(keys.to_set().contains(c));
            let j = choose|j: int| 0 <= j < keys.len() && keys[j] == c;
            assert(writes[j] == encode_object(ObjectView::Blob(w[c])));
            crate::object::lemma_decode_encode(ObjectView::Blob(w[c]));
            assert(objs.contains_key(address_of(writes[j])));
        }
        assert(tv.map_values(|a: u64| blob_data(objs[a])) =~= w);
    }

    /// Committing puts the commit in front of the logged history: once `w`
    /// is committed as `h` on a repository whose history ends in commits
    /// `es`, the history from the new HEAD is `h` with `message`, then
    /// `es`. Only an address collision, another object already stored under
    /// the new commit's address, is left out.
    pub proof fn lemma_commit_then_history(
        r0: Self,
        r1: Self,
        w: Map<(i32, i32), Seq<u8>>,
        message: Seq<char>,
        timestamp: u64,
        h: crate::hash::Hash,
        es: Seq<(u64, Seq<char>)>,
    )
        requires
            r0.committed(r1, w, message, timestamp, h),
            history_ends(r0.objects(), r0.head_value()),
            history(r0.objects(), r0.head_value()) == Walk::Done(es),
            vstd::utf8::encode_utf8(message).len() <= u64::MAX,
            r1.objects()[h@] == encode_object(
                ObjectView::Commit(world_commit(w, r0.head_value(), timestamp, message)),
            ),
        ensures
            history_ends(r1.objects(), r1.head_value()),
            history(r1.objects(), r1.head_value()) == Walk::Done(seq![(h@, message)] + es),
    {
        if r0.head_value() is None {
            lemma_history_is(r0.objects(), r0.head_value(), 0);
        }
        lemma_commit_extends_history(r0.objects(), r0.head_value(), w, message, timestamp);
    }

    /// Successive commits are linked: the commit made after the commit `h1`
    /// has `h1` as its parent, and committing the same world twice gives
    /// both commits the same tree.
    pub proof fn lemma_successive_commits_linked(
        r0: Self,
        r1: Self,
        r2: Self,
        w1: Map<(i32, i32), Seq<u8>>,
        m1: Seq<char>,
        t1: u64,
        h1: crate::hash::Hash,
        w2: Map<(i32, i32), Seq<u8>>,
        m2: Seq<char>,
        t2: u64,
        h2: crate::hash::Hash,
    )
        requires
            r0.committed(r1, w1, m1, t1, h1),
            r1.committed(r2, w2, m2, t2, h2),
        ensures
            r1.current_head() == Some(h1),
            r2.current_head() == Some(h2),
            world_commit(w2, r1.head_value(), t2, m2).parent == Some(h1@),
            h2@ == address_of(
                encode_object(ObjectView::Commit(world_commit(w2, Some(h1@), t2, m2))),
            ),
            w1 == w2 ==> world_commit(w1, r0.head_value(), t1, m1).tree == world_commit(
                w2,
                r1.head_value(),
                t2,
                m2,
            ).tree,
    {
    }
}

/// Writing never changes or removes an object already stored.
pub proof fn lemma_writes_keep(objs: Map<u64, Seq<u8>>, datas: Seq<Seq<u8>>)
    ensures
        forall|k: u64| #[trigger]
            objs.contains_key(k) ==> stored_after_writes(objs, datas).contains_key(k)
                && stored_after_writes(objs, datas)[k] == objs[k],
    decreases datas.len(),
{
    if datas.len() > 0 {
        lemma_writes_keep(objs, datas.drop_last());
    }
}

/// Writing objects whose addresses are all stored already changes nothing.
pub proof fn lemma_writes_present(objs: Map<u64, Seq<u8>>, datas: Seq<Seq<u8>>)
    requires
        forall|i: int| 0 <= i < datas.len() ==> objs.contains_key(address_of(#[trigger] datas[i])),
    ensures
        stored_after_writes(objs, datas) == objs,
    decreases datas.len(),
{
    if datas.len() > 0 {
        assert forall|i: int| 0 <= i < datas.drop_last().len() implies objs.contains_key(
            address_of(#[trigger] datas.drop_last()[i]),
        ) by {
            assert(datas.drop_last()[i] == datas[i]);
        }
        lemma_writes_present(objs, datas.drop_last());
        assert(objs.contains_key(address_of(datas[datas.len() - 1])));
    }
}

/// After writing objects, each of their addresses is stored.
pub proof fn lemma_writes_stored(objs: Map<u64, Seq<u8>>, datas: Seq<Seq<u8>>)
    ensures
        forall|i: int|
            0 <= i < datas.len() ==> stored_after_writes(objs, datas).contains_key(
                address_of(#[trigger] datas[i]),
            ),
    decreases datas.len(),
{
    if datas.len() > 0 {
        let init = datas.drop_last();
        lemma_writes_stored(objs, init);
        assert forall|i: int| 0 <= i < datas.len() implies stored_after_writes(
            objs,
            datas,
        ).contains_key(address_of(#[trigger] datas[i])) by {
            if i < init.len() {
                assert(init[i] == datas[i]);
            }
        }
    }
}

/// A walk that ends in a store ends the same way in any store that keeps
/// its objects.
proof fn lemma_walk_kept(
    objs: Map<u64, Seq<u8>>,
    more: Map<u64, Seq<u8>>,
    cur: Option<u64>,
    fuel: nat,
)
    requires
        walk(objs, cur, fuel) is Done,
        forall|k: u64| #[trigger]
            objs.contains_key(k) ==> more.contains_key(k) && more[k] == objs[k],
    ensures
        walk(more, cur, fuel) == walk(objs, cur, fuel),
    decreases fuel,
{
    match cur {
        None => {},
        Some(h) => {
            assert(objs.contains_key(h));
            match decode_object(objs[h]) {
                Some(ObjectView::Commit(c)) => {
                    lemma_walk_kept(objs, more, c.parent, (fuel - 1) as nat);
                },
                _ => {},
            }
        },
    }
}

/// Committing puts the new commit in front of the history: after a commit
/// of `w` on top of `head`, whose history is intact, the history from the
/// new commit is that commit followed by the history from `head`. Only an
/// address collision, another object already stored under the new
/// commit's address, is left out.
pub proof fn lemma_commit_extends_history(
    before: Map<u64, Seq<u8>>,
    head: Option<u64>,
    w: Map<(i32, i32), Seq<u8>>,
    message: Seq<char>,
    timestamp: u64,
)
    requires
        history_ends(before, head),
        history(before, head) is Done,
        vstd::utf8::encode_utf8(message).len() <= u64::MAX,
        ({
            let enc = encode_object(ObjectView::Commit(world_commit(w, head, timestamp, message)));
            let after = stored_after_writes(before, commit_writes(w, head, timestamp, message));
            after[address_of(enc)] == enc
        }),
    ensures
        ({
            let enc = encode_object(ObjectView::Commit(world_commit(w, head, timestamp, message)));
            let after = stored_after_writes(before, commit_writes(w, head, timestamp, message));
            &&& history_ends(after, Some(address_of(enc)))
            &&& history(after, Some(address_of(enc))) == prepend(
                seq![(address_of(enc), message)],
                history(before, head),
            )
        }),
{
    let c = world_commit(w, head, timestamp, message);
    let enc = encode_object(ObjectView::Commit(c));
    let writes = commit_writes(w, head, timestamp, message);
    let after = stored_after_writes(before, writes);
    let a = address_of(enc);
    let f = choose|fuel: nat| !(#[trigger] walk(before, head, fuel) is OutOfFuel);
    lemma_writes_keep(before, writes);
    lemma_walk_kept(before, after, head, f);
    crate::object::lemma_decode_encode(ObjectView::Commit(c));
    assert(writes.last() == enc);
    assert(after.contains_key(a)) by {
        assert(writes.drop_last() + seq![enc] =~= writes);
    }
    assert(walk(after, Some(a), f + 1) == prepend(seq![(a, message)], walk(before, head, f)));
    assert(!(walk(after, Some(a), f + 1) is OutOfFuel));
    let g = choose|fuel: nat| !(#[trigger] walk(after, Some(a), fuel) is OutOfFuel);
    if g <= f + 1 {
        lemma_walk_fuel(after, Some(a), g, f + 1);
    } else {
        lemma_walk_fuel(after, Some(a), f + 1, g);
    }
}

/// Committing a world whose blobs and tree are all stored already adds
/// nothing but the commit: unchanged chunks are stored once.
pub proof fn lemma_recommit_stores_only_commit(
    before: Map<u64, Seq<u8>>,
    head: Option<u64>,
    w: Map<(i32, i32), Seq<u8>>,
    message: Seq<char>,
    timestamp: u64,
)
    requires
        w.dom().finite(),
        forall|c: (i32, i32)| #[trigger]
            w.contains_key(c) ==> before.contains_key(
                address_of(encode_object(ObjectView::Blob(w[c]))),
            ),
        before.contains_key(address_of(encode_object(ObjectView::Tree(world_tree(w))))),
    ensures
        stored_after_writes(before, commit_writes(w, head, timestamp, message))
            == crate::store::stored_after_write(
            before,
            encode_object(ObjectView::Commit(world_commit(w, head, timestamp, message))),
        ),
{
    let writes = commit_writes(w, head, timestamp, message);
    let pre = writes.drop_last();
    crate::object::lemma_sorted_coords(w.dom());
    let keys = crate::object::sorted_coords(w.dom());
    assert forall|i: int| 0 <= i < pre.len() implies before.contains_key(address_of(#[trigger] pre[i])) by {
        if i < keys.len() {
            assert(keys.to_set().contains(keys[i]));
            assert(pre[i] == encode_object(ObjectView::Blob(w[keys[i]])));
        } else {
            assert(pre[i] == encode_object(ObjectView::Tree(world_tree(w))));
        }
    }
    lemma_writes_present(before, pre);
}
} // verus!
