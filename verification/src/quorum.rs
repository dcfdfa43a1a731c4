//! Files locked with a quorum of hardware keys: a file is encrypted under a
//! random data key, and that key is split along a tree.

use std::collections::HashMap;

use vstd::prelude::*;

use crate::bytes::copy_bytes;
use crate::crypto::{
    aes_gcm_opened, decrypt, encrypt, nonce_array, random_key, random_nonce, wipe, KEY_LEN,
    MAX_PLAINTEXT_LEN, NONCE_LEN,
};
use crate::error::{fault_of, Error, StoreError};
use crate::key_tree::laws::{
    presented_truly, quorum_met, reconstruction_needs_exactly_a_quorum, whole,
};
use crate::key_tree::listing::{
    describable, describe, describes, hardware_registered, TreeSummary,
};
use crate::key_tree::reconstruct::{bytes_result, reconstruct, reconstructed, share_views};
use crate::key_tree::holding::tree_holds;
use crate::key_tree::spec::{validate, NodeSpec};
use crate::key_tree::split::{
    added, follows_plan, names_a_peer_twice, node_count, planned, planned_bridges, split,
    split_fault,
};
use crate::key_tree::store::{
    next_key_id, next_node_id, KeyRowView, NodeRowView, TreeStore, TreeStoreView,
};
use crate::key_tree::tree::{key_rows, loaded};
use crate::keys::{registry_wf, HardwareKeyView, KeyRegistry};
use crate::sealing::key_array;
use crate::text::text_equal;

verus! {

/// A file and the state of its tree.
#[derive(Debug)]
pub struct FileStatus {
    pub id: i64,
    pub name: String,
    pub encrypted_path: String,
    pub created_at: String,
    pub tree: TreeSummary,
}

/// A file as it is kept. Its contents stand at `encrypted_path`.
#[derive(Debug)]
pub struct QuorumFileRow {
    pub id: i64,
    pub name: String,
    pub encrypted_path: String,
    pub key_id: i64,
    pub nonce: Vec<u8>,
    pub created_at: String,
}

#[verifier::ext_equal]
pub struct QuorumFileRowView {
    pub id: i64,
    pub name: Seq<char>,
    pub encrypted_path: Seq<char>,
    pub key_id: i64,
    pub nonce: Seq<u8>,
    pub created_at: Seq<char>,
}

impl View for QuorumFileRow {
    type V = QuorumFileRowView;

    open spec fn view(&self) -> QuorumFileRowView {
        QuorumFileRowView {
            id: self.id,
            name: self.name@,
            encrypted_path: self.encrypted_path@,
            key_id: self.key_id,
            nonce: self.nonce@,
            created_at: self.created_at@,
        }
    }
}

/// All files, in the order of their ids.
#[derive(Debug)]
pub struct QuorumFiles {
    pub rows: Vec<QuorumFileRow>,
}

impl View for QuorumFiles {
    type V = Seq<QuorumFileRowView>;

    open spec fn view(&self) -> Seq<QuorumFileRowView> {
        Seq::new(self.rows@.len(), |i: int| self.rows@[i]@)
    }
}

/// One attempt to unlock a file, for the record.
#[derive(Clone, Copy, Debug, PartialEq, Eq, Structural)]
pub struct UnlockEvent {
    pub file_id: i64,
    pub success: bool,
    pub shares_presented: usize,
}

/// Ids are positive and ascend, and no two files share a path.
pub open spec fn quorum_files_wf(rows: Seq<QuorumFileRowView>) -> bool {
    &&& forall|i: int| 0 <= i < rows.len() ==> (#[trigger] rows[i]).id > 0
    &&& forall|i: int, j: int|
        0 <= i < j < rows.len() ==> (#[trigger] rows[i]).id < (#[trigger] rows[j]).id
    &&& forall|i: int, j: int|
        0 <= i < j < rows.len() ==> (#[trigger] rows[i]).encrypted_path != (
        #[trigger] rows[j]).encrypted_path
}

/// The id that the next file gets.
pub open spec fn next_quorum_file_id(rows: Seq<QuorumFileRowView>) -> int {
    if rows.len() == 0 {
        1
    } else {
        rows.last().id + 1
    }
}

/// Where the file with an id stands.
pub open spec fn quorum_file_place(rows: Seq<QuorumFileRowView>, id: i64) -> Option<int> {
    if exists|i: int| 0 <= i < rows.len() && (#[trigger] rows[i]).id == id {
        Some(choose|i: int| 0 <= i < rows.len() && (#[trigger] rows[i]).id == id)
    } else {
        None
    }
}

/// Some file has its contents at the path.
pub open spec fn quorum_path_taken(rows: Seq<QuorumFileRowView>, path: Seq<char>) -> bool {
    exists|i: int| 0 <= i < rows.len() && (#[trigger] rows[i]).encrypted_path == path
}

/// The tree of a file stands for a data key at its root, and that key decrypts
/// the contents.
pub open spec fn guarded(
    nodes: Seq<NodeRowView>,
    keys: Seq<HardwareKeyView>,
    values: Map<i64, Seq<u8>>,
    row: QuorumFileRowView,
    ciphertext: Seq<u8>,
    plaintext: Seq<u8>,
) -> bool {
    let data_key = values[key_rows(nodes, row.key_id)[0].id];
    &&& tree_holds(nodes, row.key_id, keys, values)
    &&& data_key.len() == KEY_LEN
    &&& row.nonce.len() == NONCE_LEN
    &&& aes_gcm_opened(data_key, row.nonce, ciphertext) == Some(plaintext)
}

/// The tree of a file guards its contents, whatever was drawn for it.
#[verifier::opaque]
pub open spec fn guards(
    nodes: Seq<NodeRowView>,
    keys: Seq<HardwareKeyView>,
    row: QuorumFileRowView,
    ciphertext: Seq<u8>,
    plaintext: Seq<u8>,
) -> bool {
    exists|values: Map<i64, Seq<u8>>| #[trigger]
        guarded(nodes, keys, values, row, ciphertext, plaintext)
}

impl QuorumFiles {
    pub fn new() -> (r: QuorumFiles)
        ensures
            r@ == Seq::<QuorumFileRowView>::empty(),
            quorum_files_wf(r@),
    {
        QuorumFiles { rows: Vec::new() }
    }

    fn find(&self, id: i64) -> (r: Option<usize>)
        requires
            quorum_files_wf(self@),
        ensures
            r is Some <==> quorum_file_place(self@, id) is Some,
            r matches Some(i) ==> i < self@.len() && quorum_file_place(self@, id) == Some(i as int),
    {
        let mut i: usize = 0;
        while i < self.rows.len()
            invariant
                i <= self.rows.len(),
                quorum_files_wf(self@),
                forall|k: int| 0 <= k < i ==> (#[trigger] self@[k]).id != id,
            decreases self.rows.len() - i,
        {
            assert(self@[i as int] == self.rows@[i as int]@);
            if self.rows[i].id == id {
                proof {
                    let found = quorum_file_place(self@, id)->0;
                    assert(self@[found].id == id);
                    assert(found == i);
                }
                return Some(i);
            }
            i += 1;
        }
        None
    }

    fn has_path(&self, path: &str) -> (r: bool)
        ensures
            r == quorum_path_taken(self@, path@),
    {
        let mut i: usize = 0;
        while i < self.rows.len()
            invariant
                i <= self.rows.len(),
                forall|k: int| 0 <= k < i ==> (#[trigger] self@[k]).encrypted_path != path@,
            decreases self.rows.len() - i,
        {
            assert(self@[i as int] == self.rows@[i as int]@);
            if text_equal(self.rows[i].encrypted_path.as_str(), path) {
                return true;
            }
            i += 1;
        }
        false
    }

    fn add(&mut self, name: &str, path: &str, key_id: i64, nonce: &[u8], created_at: &str) -> (r:
        i64)
        requires
            quorum_files_wf(old(self)@),
            next_quorum_file_id(old(self)@) <= i64::MAX,
            !quorum_path_taken(old(self)@, path@),
        ensures
            quorum_files_wf(final(self)@),
            r == next_quorum_file_id(old(self)@),
            final(self)@ == old(self)@.push(
                QuorumFileRowView {
                    id: r,
                    name: name@,
                    encrypted_path: path@,
                    key_id,
                    nonce: nonce@,
                    created_at: created_at@,
                },
            ),
    {
        let ghost before = self@;
        let count: usize = self.rows.len();
        let id: i64 = if count == 0 {
            1
        } else {
            assert(before[count - 1] == self.rows@[count - 1]@);
            self.rows[count - 1].id + 1
        };
        let row = QuorumFileRow {
            id,
            name: name.to_owned(),
            encrypted_path: path.to_owned(),
            key_id,
            nonce: copy_bytes(nonce),
            created_at: created_at.to_owned(),
        };
        let ghost added_row = row@;
        self.rows.push(row);
        proof {
            let after = self@;
            assert(after =~= before.push(added_row));
            if count > 0 {
                assert(before[count - 1].id > 0);
            }
            assert forall|a: int, b: int| 0 <= a < b < after.len() implies (#[trigger] after[a]).id
                < (#[trigger] after[b]).id && after[a].encrypted_path != after[b].encrypted_path by {
                if b == before.len() {
                    assert(after[a] == before[a]);
                    if a < before.len() - 1 {
                        assert(before[a].id < before[before.len() - 1].id);
                    }
                } else {
                    assert(before[a].id < before[b].id);
                }
            }
            assert forall|a: int| 0 <= a < after.len() implies (#[trigger] after[a]).id > 0 by {
                if a < before.len() {
                    assert(after[a] == before[a]);
                }
            }
        }
        id
    }
}

/// Why a file cannot be locked, if it cannot: the tree cannot be split, or the
/// path is that of another file.
pub open spec fn lock_fault(
    files: Seq<QuorumFileRowView>,
    keys: Seq<HardwareKeyView>,
    encrypted_path: Seq<char>,
    spec: NodeSpec,
) -> Option<Error> {
    match split_fault(keys, spec) {
        Some(e) => Some(e),
        None => if quorum_path_taken(files, encrypted_path) {
            Some(Error::Db(StoreError::QuorumFilePath))
        } else {
            None
        },
    }
}

/// The nodes of a secret stand for some values, and the root's is the given one.
#[verifier::opaque]
spec fn rooted(
    nodes: Seq<NodeRowView>,
    key_id: i64,
    keys: Seq<HardwareKeyView>,
    secret: Seq<u8>,
) -> bool {
    exists|values: Map<i64, Seq<u8>>|
        values[key_rows(nodes, key_id)[0].id] == secret && #[trigger] tree_holds(
            nodes,
            key_id,
            keys,
            values,
        )
}

proof fn lemma_rooted_guards(
    nodes: Seq<NodeRowView>,
    keys: Seq<HardwareKeyView>,
    data_key: Seq<u8>,
    row: QuorumFileRowView,
    ciphertext: Seq<u8>,
    plaintext: Seq<u8>,
)
    requires
        rooted(nodes, row.key_id, keys, data_key),
        data_key.len() == KEY_LEN,
        row.nonce.len() == NONCE_LEN,
        aes_gcm_opened(data_key, row.nonce, ciphertext) == Some(plaintext),
    ensures
        guards(nodes, keys, row, ciphertext, plaintext),
{
    reveal(rooted);
    let values = choose|values: Map<i64, Seq<u8>>|
        values[key_rows(nodes, row.key_id)[0].id] == data_key && #[trigger] tree_holds(
            nodes,
            row.key_id,
            keys,
            values,
        );
    assert(guarded(nodes, keys, values, row, ciphertext, plaintext));
    reveal(guards);
}

proof fn lemma_first_planned(spec: NodeSpec, key_id: i64, first: int)
    ensures
        planned(spec, key_id, None, first).len() > 0,
        planned(spec, key_id, None, first)[0].row.id == first as i64,
{
}

fn split_data_key(
    trees: &mut TreeStore,
    registry: &KeyRegistry,
    name: &str,
    data_key: &[u8; 32],
    tree_spec: &NodeSpec,
) -> (r: Result<i64, Error>)
    requires
        old(trees).wf(),
        registry_wf(registry@),
        next_key_id(old(trees)@.keys) <= i64::MAX,
        next_node_id(old(trees)@.nodes) + node_count(*tree_spec) <= i64::MAX,
    ensures
        final(trees).wf(),
        fault_of(r) == split_fault(registry@, *tree_spec),
        r is Err ==> *final(trees) == *old(trees),
        r matches Ok(key_id) ==> {
            let rows = added(final(trees)@.nodes, old(trees)@.nodes.len());
            let plan = planned(*tree_spec, key_id, None, next_node_id(old(trees)@.nodes));
            &&& key_id == next_key_id(old(trees)@.keys)
            &&& final(trees)@.keys == old(trees)@.keys.push(KeyRowView { id: key_id, label: name@ })
            &&& final(trees)@.links == old(trees)@.links
            &&& final(trees)@.bridges == old(trees)@.bridges.union(planned_bridges(plan))
            &&& final(trees)@.nodes == old(trees)@.nodes + rows
            &&& key_rows(final(trees)@.nodes, key_id) == rows
            &&& follows_plan(rows, plan)
            &&& loaded(final(trees)@, key_id) is Ok
            &&& whole(final(trees)@.nodes, key_id)
            &&& rooted(final(trees)@.nodes, key_id, registry@, data_key@)
        },
{
    let ghost before = trees@;
    let r = split(trees, registry, name, data_key, tree_spec);
    proof {
        if let Ok(key_id) = r {
            let first = next_node_id(before.nodes);
            let plan = planned(*tree_spec, key_id, None, first);
            let rows = added(trees@.nodes, before.nodes.len());
            let values = choose|values: Map<i64, Seq<u8>>|
                values[first as i64] == data_key@ && #[trigger] tree_holds(
                    trees@.nodes,
                    key_id,
                    registry@,
                    values,
                );
            lemma_first_planned(*tree_spec, key_id, first);
            assert(rows[0].id == plan[0].row.id);
            reveal(rooted);
        }
    }
    r
}

/// Encrypts contents under a fresh data key, splits that key along the spec and
/// records the file: its id, and what has to stand at its path. If that cannot
/// be done, nothing changes.
pub fn lock_file(
    trees: &mut TreeStore,
    registry: &KeyRegistry,
    files: &mut QuorumFiles,
    name: &str,
    encrypted_path: &str,
    plaintext: &[u8],
    tree_spec: &NodeSpec,
    created_at: &str,
) -> (r: Result<(i64, Vec<u8>), Error>)
    requires
        old(trees).wf(),
        registry_wf(registry@),
        quorum_files_wf(old(files)@),
        next_quorum_file_id(old(files)@) <= i64::MAX,
        next_key_id(old(trees)@.keys) <= i64::MAX,
        next_node_id(old(trees)@.nodes) + node_count(*tree_spec) <= i64::MAX,
        plaintext@.len() <= MAX_PLAINTEXT_LEN,
    ensures
        final(trees).wf(),
        quorum_files_wf(final(files)@),
        fault_of(r) == lock_fault(old(files)@, registry@, encrypted_path@, *tree_spec),
        r is Err ==> final(trees)@ == old(trees)@ && final(files)@ == old(files)@,
        r matches Ok((id, ciphertext)) ==> {
            let row = final(files)@.last();
            let rows = added(final(trees)@.nodes, old(trees)@.nodes.len());
            let plan = planned(*tree_spec, row.key_id, None, next_node_id(old(trees)@.nodes));
            &&& id == next_quorum_file_id(old(files)@)
            &&& final(files)@ == old(files)@.push(row)
            &&& row.id == id
            &&& row.name == name@
            &&& row.encrypted_path == encrypted_path@
            &&& row.created_at == created_at@
            &&& row.key_id == next_key_id(old(trees)@.keys)
            &&& final(trees)@.keys == old(trees)@.keys.push(
                KeyRowView { id: row.key_id, label: name@ },
            )
            &&& final(trees)@.links == old(trees)@.links
            &&& final(trees)@.bridges == old(trees)@.bridges.union(planned_bridges(plan))
            &&& final(trees)@.nodes == old(trees)@.nodes + rows
            &&& key_rows(final(trees)@.nodes, row.key_id) == rows
            &&& follows_plan(rows, plan)
            &&& loaded(final(trees)@, row.key_id) is Ok
            &&& whole(final(trees)@.nodes, row.key_id)
            &&& guards(final(trees)@.nodes, registry@, row, ciphertext@, plaintext@)
        },
{
    match validate(registry, tree_spec) {
        Ok(()) => {},
        Err(e) => { return Err(e); },
    }
    if names_a_peer_twice(tree_spec) {
        return Err(Error::Db(StoreError::NodePeer));
    }
    let mut data_key = random_key();
    let ghost drawn = data_key@;
    let nonce = random_nonce();
    let ciphertext = encrypt(&data_key, &nonce, plaintext);
    let taken = files.has_path(encrypted_path);
    if taken {
        wipe(&mut data_key);
        return Err(Error::Db(StoreError::QuorumFilePath));
    }
    let split_key = split_data_key(trees, registry, name, &data_key, tree_spec);
    wipe(&mut data_key);
    match split_key {
        Err(e) => Err(e),
        Ok(key_id) => {
            let id = files.add(name, encrypted_path, key_id, &nonce, created_at);
            proof {
                lemma_rooted_guards(
                    trees@.nodes,
                    registry@,
                    drawn,
                    files@.last(),
                    ciphertext@,
                    plaintext@,
                );
            }
            Ok((id, ciphertext))
        },
    }
}

/// A file with the state of its tree.
pub fn status(
    files: &QuorumFiles,
    trees: &TreeStore,
    registry: &KeyRegistry,
    file_id: i64,
) -> (r: Result<FileStatus, Error>)
    requires
        quorum_files_wf(files@),
        trees.wf(),
        registry_wf(registry@),
        hardware_registered(trees@.nodes, registry@),
    ensures
        match r {
            Ok(status) => quorum_file_place(files@, file_id) matches Some(i) && {
                &&& status.id == file_id
                &&& status.name@ == files@[i].name
                &&& status.encrypted_path@ == files@[i].encrypted_path
                &&& status.created_at@ == files@[i].created_at
                &&& describes(trees@, registry@, files@[i].key_id, status.tree)
            },
            Err(e) => e == Error::Db(StoreError::NoRows) && (quorum_file_place(files@, file_id)
                matches Some(i) ==> !describable(trees@, files@[i].key_id)),
        },
{
    let i = match files.find(file_id) {
        Some(i) => i,
        None => return Err(Error::Db(StoreError::NoRows)),
    };
    assert(files@[i as int] == files.rows@[i as int]@);
    let row = &files.rows[i];
    match describe(trees, registry, row.key_id) {
        Ok(tree) => Ok(
            FileStatus {
                id: file_id,
                name: row.name.as_str().to_owned(),
                encrypted_path: row.encrypted_path.as_str().to_owned(),
                created_at: row.created_at.as_str().to_owned(),
                tree,
            },
        ),
        Err(e) => Err(e),
    }
}

/// The data key that shares give for a file, or why they give none.
pub open spec fn data_key_of(
    store: TreeStoreView,
    row: QuorumFileRowView,
    shares: Map<i64, Seq<u8>>,
) -> Result<Seq<u8>, Error> {
    match reconstructed(store, row.key_id, shares) {
        Err(e) => Err(e),
        Ok(key) => if key.len() != KEY_LEN {
            Err(Error::QuorumNotMet)
        } else if row.nonce.len() != NONCE_LEN {
            Err(Error::IntegrityCheckFailed)
        } else {
            Ok(key)
        },
    }
}

/// The data key and the nonce for the contents of a file, from the shares that
/// stand under the ids of their leaves.
pub fn recover_data_key(
    trees: &TreeStore,
    row: &QuorumFileRow,
    raw_shares: &HashMap<i64, Vec<u8>>,
) -> (r: Result<([u8; 32], [u8; 12]), Error>)
    requires
        trees.wf(),
    ensures
        data_key_of(trees@, row@, share_views(raw_shares@)) == (match r {
            Ok((key, _)) => Ok(key@),
            Err(e) => Err(e),
        }),
        r matches Ok((_, nonce)) ==> nonce@ == row.nonce@,
{
    let secret = match reconstruct(trees, row.key_id, raw_shares) {
        Ok(secret) => secret,
        Err(e) => return Err(e),
    };
    let key = match key_array(secret.as_slice()) {
        Some(key) => key,
        None => return Err(Error::QuorumNotMet),
    };
    match nonce_array(row.nonce.as_slice()) {
        Some(nonce) => Ok((key, nonce)),
        None => Err(Error::IntegrityCheckFailed),
    }
}

/// Decrypts the contents of a file under its data key.
pub fn open_contents(key: &[u8; 32], nonce: &[u8; 12], ciphertext: &[u8]) -> (r: Result<
    Vec<u8>,
    Error,
>)
    ensures
        bytes_result(r) == (match aes_gcm_opened(key@, nonce@, ciphertext@) {
            Some(plaintext) => Ok(plaintext),
            None => Err(Error::IntegrityCheckFailed),
        }),
{
    match decrypt(key, nonce, ciphertext) {
        Ok(plaintext) => Ok(plaintext),
        Err(_) => Err(Error::IntegrityCheckFailed),
    }
}

/// What a file gives for shares and the contents of its path.
pub open spec fn opened_by(
    store: TreeStoreView,
    row: QuorumFileRowView,
    ciphertext: Seq<u8>,
    shares: Map<i64, Seq<u8>>,
) -> Result<Seq<u8>, Error> {
    match data_key_of(store, row, shares) {
        Err(e) => Err(e),
        Ok(key) => match aes_gcm_opened(key, row.nonce, ciphertext) {
            Some(plaintext) => Ok(plaintext),
            None => Err(Error::IntegrityCheckFailed),
        },
    }
}

fn reconstruct_and_decrypt(
    trees: &TreeStore,
    row: &QuorumFileRow,
    ciphertext: &[u8],
    raw_shares: &HashMap<i64, Vec<u8>>,
) -> (r: Result<Vec<u8>, Error>)
    requires
        trees.wf(),
    ensures
        bytes_result(r) == opened_by(trees@, row@, ciphertext@, share_views(raw_shares@)),
{
    match recover_data_key(trees, row, raw_shares) {
        Ok((key, nonce)) => open_contents(&key, &nonce, ciphertext),
        Err(e) => Err(e),
    }
}

/// Unlocks a file, given what stands at its path, with shares that stand under
/// the ids of their leaves. Every attempt on a file that exists is put on record.
pub fn unlock_file(
    trees: &TreeStore,
    files: &QuorumFiles,
    events: &mut Vec<UnlockEvent>,
    file_id: i64,
    ciphertext: &[u8],
    raw_shares: &HashMap<i64, Vec<u8>>,
) -> (r: Result<Vec<u8>, Error>)
    requires
        trees.wf(),
        quorum_files_wf(files@),
    ensures
        match quorum_file_place(files@, file_id) {
            None => r == Err::<Vec<u8>, Error>(Error::Db(StoreError::NoRows)) && final(events)@
                == old(events)@,
            Some(i) => {
                &&& bytes_result(r) == opened_by(
                    trees@,
                    files@[i],
                    ciphertext@,
                    share_views(raw_shares@),
                )
                &&& final(events)@.len() == old(events)@.len() + 1
                &&& final(events)@.drop_last() == old(events)@
                &&& final(events)@.last().file_id == file_id
                &&& final(events)@.last().success == (r is Ok)
                &&& final(events)@.last().shares_presented == raw_shares@.dom().len()
            },
        },
{
    let i = match files.find(file_id) {
        Some(i) => i,
        None => return Err(Error::Db(StoreError::NoRows)),
    };
    assert(files@[i as int] == files.rows@[i as int]@);
    let result = reconstruct_and_decrypt(trees, &files.rows[i], ciphertext, raw_shares);
    let event = UnlockEvent {
        file_id,
        success: result.is_ok(),
        shares_presented: raw_shares.len(),
    };
    events.push(event);
    assert(events@.drop_last() =~= old(events)@);
    result
}

/// A locked file opens to its contents where the presented leaves meet the quorum
/// of its tree, and to nothing where they do not.
pub proof fn file_opens_with_exactly_a_quorum(
    store: TreeStoreView,
    keys: Seq<HardwareKeyView>,
    values: Map<i64, Seq<u8>>,
    row: QuorumFileRowView,
    ciphertext: Seq<u8>,
    plaintext: Seq<u8>,
    shares: Map<i64, Seq<u8>>,
)
    requires
        presented_truly(store.nodes, row.key_id, keys, values, shares),
        guarded(store.nodes, keys, values, row, ciphertext, plaintext),
    ensures
        loaded(store, row.key_id) matches Ok(t) && opened_by(store, row, ciphertext, shares)
            == if quorum_met(t, t.root, shares.dom()) {
            Ok::<Seq<u8>, Error>(plaintext)
        } else {
            Err(Error::QuorumNotMet)
        },
{
    reconstruction_needs_exactly_a_quorum(store, row.key_id, keys, values, shares);
}

/// A file can be locked exactly if its tree can be split and no other file has the path. A
/// tree that cannot be split is told of first.
pub proof fn files_that_can_be_locked(
    files: Seq<QuorumFileRowView>,
    keys: Seq<HardwareKeyView>,
    encrypted_path: Seq<char>,
    spec: NodeSpec,
)
    ensures
        lock_fault(files, keys, encrypted_path, spec) is None <==> {
            &&& split_fault(keys, spec) is None
            &&& forall|i: int|
                0 <= i < files.len() ==> (#[trigger] files[i]).encrypted_path != encrypted_path
        },
        split_fault(keys, spec) is Some ==> lock_fault(files, keys, encrypted_path, spec)
            == split_fault(keys, spec),
{
}

/// A file opens exactly where its shares reconstruct a key of 32 bytes, the nonce is one,
/// and the contents decrypt under that key.
pub proof fn files_that_open(
    store: TreeStoreView,
    row: QuorumFileRowView,
    ciphertext: Seq<u8>,
    shares: Map<i64, Seq<u8>>,
)
    ensures
        ({
            let key = reconstructed(store, row.key_id, shares);
            let given = opened_by(store, row, ciphertext, shares);
            let opened = aes_gcm_opened(key->Ok_0, row.nonce, ciphertext);
            &&& given is Ok <==> key is Ok && key->Ok_0.len() == 32 && row.nonce.len() == 12
                && opened is Some
            &&& given matches Ok(contents) ==> opened == Some(contents)
            &&& key is Err ==> fault_of(given) == fault_of(key)
            &&& key is Ok && key->Ok_0.len() != 32 ==> fault_of(given) == Some(Error::QuorumNotMet)
            &&& key is Ok && key->Ok_0.len() == 32 && (row.nonce.len() != 12 || opened is None)
                ==> fault_of(given) == Some(Error::IntegrityCheckFailed)
        }),
{
}

/// Files are counted from one on, without a gap.
pub proof fn file_ids_count_on(rows: Seq<QuorumFileRowView>, row: QuorumFileRowView)
    ensures
        next_quorum_file_id(Seq::<QuorumFileRowView>::empty()) == 1,
        row.id == next_quorum_file_id(rows) ==> next_quorum_file_id(rows.push(row)) == next_quorum_file_id(rows) + 1,
{
}

/// With a file its path is taken, and no other path. Without files none is.
pub proof fn file_takes_its_path(
    rows: Seq<QuorumFileRowView>,
    row: QuorumFileRowView,
    path: Seq<char>,
)
    ensures
        quorum_path_taken(rows.push(row), path) <==> quorum_path_taken(rows, path)
            || row.encrypted_path == path,
        !quorum_path_taken(Seq::empty(), path),
{
    let all = rows.push(row);
    if quorum_path_taken(rows, path) {
        let i = choose|i: int| 0 <= i < rows.len() && (#[trigger] rows[i]).encrypted_path == path;
        assert(all[i].encrypted_path == path);
    }
    assert(all[rows.len() as int] == row);
    if quorum_path_taken(all, path) {
        let i = choose|i: int| 0 <= i < all.len() && (#[trigger] all[i]).encrypted_path == path;
        if i < rows.len() {
            assert(rows[i].encrypted_path == path);
        }
    }
}

} // verus!
