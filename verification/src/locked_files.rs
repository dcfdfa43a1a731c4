//! Files locked with a single password.

use vstd::prelude::*;
use vstd::utf8::*;

use crate::bytes::copy_bytes;
use crate::crypto::{
    aes_gcm_opened, aes_gcm_sealed, decrypt, derivable, derive_key, derived_key, encrypt,
    nonce_array, random_nonce, random_salt, wipe, MAX_PLAINTEXT_LEN, NONCE_LEN, SALT_LEN,
};
use crate::error::{fault_of, Error, StoreError};
use crate::text::text_equal;

verus! {

/// A locked file as it is kept. Its contents stand at `encrypted_path`.
#[derive(Debug)]
pub struct LockedFileRow {
    pub id: i64,
    pub name: String,
    pub encrypted_path: String,
    pub kdf_salt: Vec<u8>,
    pub nonce: Vec<u8>,
}

#[verifier::ext_equal]
pub struct LockedFileRowView {
    pub id: i64,
    pub name: Seq<char>,
    pub encrypted_path: Seq<char>,
    pub kdf_salt: Seq<u8>,
    pub nonce: Seq<u8>,
}

impl View for LockedFileRow {
    type V = LockedFileRowView;

    open spec fn view(&self) -> LockedFileRowView {
        LockedFileRowView {
            id: self.id,
            name: self.name@,
            encrypted_path: self.encrypted_path@,
            kdf_salt: self.kdf_salt@,
            nonce: self.nonce@,
        }
    }
}

/// All locked files, in the order of their ids.
#[derive(Debug)]
pub struct LockedFiles {
    pub rows: Vec<LockedFileRow>,
}

impl View for LockedFiles {
    type V = Seq<LockedFileRowView>;

    open spec fn view(&self) -> Seq<LockedFileRowView> {
        Seq::new(self.rows@.len(), |i: int| self.rows@[i]@)
    }
}

/// Ids are positive and ascend, and no two files share a path.
pub open spec fn files_wf(rows: Seq<LockedFileRowView>) -> bool {
    &&& forall|i: int| 0 <= i < rows.len() ==> (#[trigger] rows[i]).id > 0
    &&& forall|i: int, j: int|
        0 <= i < j < rows.len() ==> (#[trigger] rows[i]).id < (#[trigger] rows[j]).id
    &&& forall|i: int, j: int|
        0 <= i < j < rows.len() ==> (#[trigger] rows[i]).encrypted_path != (
        #[trigger] rows[j]).encrypted_path
}

/// The id that the next file gets.
pub open spec fn next_file_id(rows: Seq<LockedFileRowView>) -> int {
    if rows.len() == 0 {
        1
    } else {
        rows.last().id + 1
    }
}

/// Where the file with an id stands.
pub open spec fn file_place(rows: Seq<LockedFileRowView>, id: i64) -> Option<int> {
    if exists|i: int| 0 <= i < rows.len() && (#[trigger] rows[i]).id == id {
        Some(choose|i: int| 0 <= i < rows.len() && (#[trigger] rows[i]).id == id)
    } else {
        None
    }
}

/// Some file has its contents at the path.
pub open spec fn path_taken(rows: Seq<LockedFileRowView>, path: Seq<char>) -> bool {
    exists|i: int| 0 <= i < rows.len() && (#[trigger] rows[i]).encrypted_path == path
}

/// Contents encrypted under a password.
#[derive(Debug)]
pub struct SealedContents {
    pub kdf_salt: Vec<u8>,
    pub nonce: Vec<u8>,
    pub ciphertext: Vec<u8>,
}

/// What encrypted contents give under a password, or why they give nothing.
pub open spec fn contents_under(
    kdf_salt: Seq<u8>,
    nonce: Seq<u8>,
    ciphertext: Seq<u8>,
    password: Seq<char>,
) -> Result<Seq<u8>, Error> {
    if !derivable(password, kdf_salt) {
        Err(Error::KeyDerivationFailed)
    } else if nonce.len() != NONCE_LEN {
        Err(Error::IntegrityCheckFailed)
    } else {
        match aes_gcm_opened(derived_key(password, kdf_salt), nonce, ciphertext) {
            Some(plaintext) => Ok(plaintext),
            None => Err(Error::InvalidPassword),
        }
    }
}

/// Encrypts contents under a password. Whatever salt and nonce are drawn, the
/// same password gives them back.
pub fn seal_contents(plaintext: &[u8], password: &str) -> (r: Result<SealedContents, Error>)
    requires
        plaintext@.len() <= MAX_PLAINTEXT_LEN,
    ensures
        r is Ok <==> encode_utf8(password@).len() <= 0xffff_ffff,
        match r {
            Ok(sealed) => {
                &&& sealed.kdf_salt@.len() == SALT_LEN
                &&& sealed.nonce@.len() == NONCE_LEN
                &&& sealed.ciphertext@ == aes_gcm_sealed(
                    derived_key(password@, sealed.kdf_salt@),
                    sealed.nonce@,
                    plaintext@,
                )
                &&& contents_under(
                    sealed.kdf_salt@,
                    sealed.nonce@,
                    sealed.ciphertext@,
                    password@,
                ) == Ok::<Seq<u8>, Error>(plaintext@)
            },
            Err(e) => e == Error::KeyDerivationFailed,
        },
{
    let salt = random_salt();
    let nonce = random_nonce();
    let mut key = match derive_key(password, &salt) {
        Ok(key) => key,
        Err(e) => return Err(e),
    };
    let ciphertext = encrypt(&key, &nonce, plaintext);
    wipe(&mut key);
    Ok(SealedContents { kdf_salt: copy_bytes(&salt), nonce: copy_bytes(&nonce), ciphertext })
}

impl LockedFiles {
    pub fn new() -> (r: LockedFiles)
        ensures
            r@ == Seq::<LockedFileRowView>::empty(),
            files_wf(r@),
    {
        LockedFiles { rows: Vec::new() }
    }

    pub(crate) fn find(&self, id: i64) -> (r: Option<usize>)
        requires
            files_wf(self@),
        ensures
            r is Some <==> file_place(self@, id) is Some,
            r matches Some(i) ==> i < self@.len() && file_place(self@, id) == Some(i as int),
    {
        let mut i: usize = 0;
        while i < self.rows.len()
            invariant
                i <= self.rows.len(),
                files_wf(self@),
                forall|k: int| 0 <= k < i ==> (#[trigger] self@[k]).id != id,
            decreases self.rows.len() - i,
        {
            assert(self@[i as int] == self.rows@[i as int]@);
            if self.rows[i].id == id {
                proof {
                    let found = file_place(self@, id)->0;
                    assert(self@[found].id == id);
                    assert(found == i);
                }
                return Some(i);
            }
            i += 1;
        }
        None
    }
}

/// Records a file whose encrypted contents stand at a path that no other file
/// has.
pub fn record_file(
    files: &mut LockedFiles,
    name: &str,
    encrypted_path: &str,
    kdf_salt: &[u8],
    nonce: &[u8],
) -> (r: Result<i64, Error>)
    requires
        files_wf(old(files)@),
        next_file_id(old(files)@) <= i64::MAX,
    ensures
        files_wf(final(files)@),
        r is Ok <==> !path_taken(old(files)@, encrypted_path@),
        match r {
            Ok(id) => {
                &&& id == next_file_id(old(files)@)
                &&& final(files)@ == old(files)@.push(
                    LockedFileRowView {
                        id,
                        name: name@,
                        encrypted_path: encrypted_path@,
                        kdf_salt: kdf_salt@,
                        nonce: nonce@,
                    },
                )
            },
            Err(e) => e == Error::Db(StoreError::LockedFilePath) && final(files)@ == old(files)@,
        },
{
    let ghost before = files@;
    let mut i: usize = 0;
    while i < files.rows.len()
        invariant
            i <= files.rows.len(),
            before == files@,
            *files == *old(files),
            files_wf(before),
            forall|k: int| 0 <= k < i ==> (#[trigger] before[k]).encrypted_path != encrypted_path@,
        decreases files.rows.len() - i,
    {
        assert(before[i as int] == files.rows@[i as int]@);
        if text_equal(files.rows[i].encrypted_path.as_str(), encrypted_path) {
            return Err(Error::Db(StoreError::LockedFilePath));
        }
        i += 1;
    }
    let count: usize = files.rows.len();
    let id: i64 = if count == 0 {
        1
    } else {
        assert(before[count - 1] == files.rows@[count - 1]@);
        files.rows[count - 1].id + 1
    };
    let row = LockedFileRow {
        id,
        name: name.to_owned(),
        encrypted_path: encrypted_path.to_owned(),
        kdf_salt: copy_bytes(kdf_salt),
        nonce: copy_bytes(nonce),
    };
    let ghost added = row@;
    files.rows.push(row);
    proof {
        let after = files@;
        assert(after =~= before.push(added));
        if count > 0 {
            assert(before[count - 1].id > 0);
        }
        assert forall|a: int, b: int| 0 <= a < b < after.len() implies (#[trigger] after[a]).id < (
        #[trigger] after[b]).id && after[a].encrypted_path != after[b].encrypted_path by {
            if b == before.len() {
                assert(after[a] == before[a]);
                if a < before.len() - 1 {
                    assert(before[a].id < before[before.len() - 1].id);
                }
            } else {
                assert(before[a].id < before[b].id);
            }
        }
        assert forall|a: int| 0 <= a < after.len() implies (#[trigger] after[a]).id > 0 by {
            if a < before.len() {
                assert(after[a] == before[a]);
            }
        }
    }
    Ok(id)
}

/// Encrypts contents and records them under a path: the id, and what has to
/// stand at the path.
pub fn lock_file(
    files: &mut LockedFiles,
    name: &str,
    encrypted_path: &str,
    plaintext: &[u8],
    password: &str,
) -> (r: Result<(i64, Vec<u8>), Error>)
    requires
        files_wf(old(files)@),
        next_file_id(old(files)@) <= i64::MAX,
        plaintext@.len() <= MAX_PLAINTEXT_LEN,
    ensures
        files_wf(final(files)@),
        match r {
            Ok((id, ciphertext)) => {
                &&& encode_utf8(password@).len() <= 0xffff_ffff
                &&& !path_taken(old(files)@, encrypted_path@)
                &&& id == next_file_id(old(files)@)
                &&& final(files)@ == old(files)@.push(final(files)@.last())
                &&& final(files)@.last().id == id
                &&& final(files)@.last().name == name@
                &&& final(files)@.last().encrypted_path == encrypted_path@
                &&& final(files)@.last().kdf_salt.len() == SALT_LEN
                &&& final(files)@.last().nonce.len() == NONCE_LEN
                &&& ciphertext@ == aes_gcm_sealed(
                    derived_key(password@, final(files)@.last().kdf_salt),
                    final(files)@.last().nonce,
                    plaintext@,
                )
                &&& unlocked(final(files)@, id, ciphertext@, password@) == Ok::<Seq<u8>, Error>(
                    plaintext@,
                )
            },
            Err(e) => {
                &&& final(files)@ == old(files)@
                &&& e == (if encode_utf8(password@).len() > 0xffff_ffff {
                    Error::KeyDerivationFailed
                } else {
                    Error::Db(StoreError::LockedFilePath)
                })
                &&& encode_utf8(password@).len() > 0xffff_ffff || path_taken(
                    old(files)@,
                    encrypted_path@,
                )
            },
        },
{
    let sealed = match seal_contents(plaintext, password) {
        Ok(sealed) => sealed,
        Err(e) => return Err(e),
    };
    match record_file(
        files,
        name,
        encrypted_path,
        sealed.kdf_salt.as_slice(),
        sealed.nonce.as_slice(),
    ) {
        Ok(id) => {
            proof {
                let rows = files@;
                let found = file_place(rows, id)->0;
                assert(rows[rows.len() - 1].id == id);
                assert(rows[found].id == id);
                assert(found == rows.len() - 1);
            }
            Ok((id, sealed.ciphertext))
        },
        Err(e) => Err(e),
    }
}

/// What a file gives for the contents of its path and a password.
pub open spec fn unlocked(
    rows: Seq<LockedFileRowView>,
    id: i64,
    ciphertext: Seq<u8>,
    password: Seq<char>,
) -> Result<Seq<u8>, Error> {
    match file_place(rows, id) {
        None => Err(Error::Db(StoreError::NoRows)),
        Some(i) => contents_under(rows[i].kdf_salt, rows[i].nonce, ciphertext, password),
    }
}

/// Decrypts a file, given what stands at its path. A wrong password and changed
/// contents are not told apart.
pub fn unlock_file(files: &LockedFiles, id: i64, ciphertext: &[u8], password: &str) -> (r: Result<
    Vec<u8>,
    Error,
>)
    requires
        files_wf(files@),
    ensures
        unlocked(files@, id, ciphertext@, password@) == (match r {
            Ok(plaintext) => Ok(plaintext@),
            Err(e) => Err(e),
        }),
{
    let i = match files.find(id) {
        Some(i) => i,
        None => return Err(Error::Db(StoreError::NoRows)),
    };
    assert(files@[i as int] == files.rows@[i as int]@);
    let row = &files.rows[i];
    let mut key = match derive_key(password, row.kdf_salt.as_slice()) {
        Ok(key) => key,
        Err(e) => return Err(e),
    };
    let nonce = match nonce_array(row.nonce.as_slice()) {
        Some(nonce) => nonce,
        None => return Err(Error::IntegrityCheckFailed),
    };
    let opened = decrypt(&key, &nonce, ciphertext);
    wipe(&mut key);
    match opened {
        Ok(plaintext) => Ok(plaintext),
        Err(_) => Err(Error::InvalidPassword),
    }
}

/// Locking further files leaves what earlier ones give.
pub proof fn later_files_change_nothing(
    rows: Seq<LockedFileRowView>,
    later: Seq<LockedFileRowView>,
    i: int,
    ciphertext: Seq<u8>,
    password: Seq<char>,
)
    requires
        files_wf(rows + later),
        0 <= i < rows.len(),
    ensures
        unlocked(rows + later, rows[i].id, ciphertext, password) == unlocked(
            rows,
            rows[i].id,
            ciphertext,
            password,
        ),
{
    let all = rows + later;
    let id = rows[i].id;
    assert(all[i] == rows[i]);
    let a = file_place(rows, id)->0;
    let b = file_place(all, id)->0;
    assert(rows[a].id == id && all[b].id == id);
    assert(all[a] == rows[a]);
    assert(a == i && b == i) by {
        if a < i {
            assert(all[a].id < all[i].id);
        } else if i < a {
            assert(all[i].id < all[a].id);
        }
        if b < i {
            assert(all[b].id < all[i].id);
        } else if i < b {
            assert(all[i].id < all[b].id);
        }
    }
}

/// A file opens exactly where a key can be derived, the nonce is one, and the contents
/// decrypt under that key. What does not decrypt is a wrong password.
pub proof fn files_that_open(
    rows: Seq<LockedFileRowView>,
    i: int,
    ciphertext: Seq<u8>,
    password: Seq<char>,
)
    requires
        files_wf(rows),
        0 <= i < rows.len(),
    ensures
        ({
            let row = rows[i];
            let given = unlocked(rows, row.id, ciphertext, password);
            let opened = aes_gcm_opened(derived_key(password, row.kdf_salt), row.nonce, ciphertext);
            let derives = derivable(password, row.kdf_salt);
            &&& given is Ok <==> derives && row.nonce.len() == 12 && opened is Some
            &&& given matches Ok(contents) ==> opened == Some(contents)
            &&& !derives ==> fault_of(given) == Some(Error::KeyDerivationFailed)
            &&& derives && row.nonce.len() != 12 ==> fault_of(given) == Some(
                Error::IntegrityCheckFailed,
            )
            &&& derives && row.nonce.len() == 12 && opened is None ==> fault_of(given) == Some(
                Error::InvalidPassword,
            )
        }),
{
    let k = file_place(rows, rows[i].id)->0;
    assert(rows[k].id == rows[i].id);
}

/// Nothing opens for an id that no file has.
pub proof fn unknown_file_does_not_open(
    rows: Seq<LockedFileRowView>,
    id: i64,
    ciphertext: Seq<u8>,
    password: Seq<char>,
)
    requires
        forall|i: int| 0 <= i < rows.len() ==> (#[trigger] rows[i]).id != id,
    ensures
        fault_of(unlocked(rows, id, ciphertext, password)) == Some(Error::Db(StoreError::NoRows)),
{
}

/// Files are counted from one on, without a gap.
pub proof fn file_ids_count_on(rows: Seq<LockedFileRowView>, row: LockedFileRowView)
    ensures
        next_file_id(Seq::<LockedFileRowView>::empty()) == 1,
        row.id == next_file_id(rows) ==> next_file_id(rows.push(row)) == next_file_id(rows) + 1,
{
}

/// With a file its path is taken, and no other path. Without files none is.
pub proof fn file_takes_its_path(
    rows: Seq<LockedFileRowView>,
    row: LockedFileRowView,
    path: Seq<char>,
)
    ensures
        path_taken(rows.push(row), path) <==> path_taken(rows, path) || row.encrypted_path == path,
        !path_taken(Seq::empty(), path),
{
    let all = rows.push(row);
    if path_taken(rows, path) {
        let i = choose|i: int| 0 <= i < rows.len() && (#[trigger] rows[i]).encrypted_path == path;
        assert(all[i].encrypted_path == path);
    }
    assert(all[rows.len() as int] == row);
    if path_taken(all, path) {
        let i = choose|i: int| 0 <= i < all.len() && (#[trigger] all[i]).encrypted_path == path;
        if i < rows.len() {
            assert(rows[i].encrypted_path == path);
        }
    }
}

} // verus!
