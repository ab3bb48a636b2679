//! The asset store: per-recipe image folders, the metadata index, and the
//! decisions behind every mutating operation.
//!
//! The store itself never touches the filesystem.  Each operation is split
//! into the part that decides and updates the index (verified here) and the
//! part that creates, removes or writes files (performed by the caller, who
//! reports the outcome back through the `*_commit` / outcome functions).

use vstd::prelude::*;
use vstd::string::StringExecFns;
use crate::index::MetaIndex;
use crate::index::views_unique;
use crate::index::map_of_views;
use crate::cbor::spec_parse_index;
use crate::cbor::spec_index_bytes;
use crate::cbor::pow256;
use crate::cbor::lemma_parse_index_of_encode;
use crate::decimal::spec_decimal;
use crate::decimal::u32_to_decimal;
use vstd::utf8::encode_utf8;

verus! {

/// Largest accepted upload, in bytes (10 MiB).
pub const MAX_IMAGE_SIZE: usize = 10 * 1024 * 1024;

/// Everything the asset store can report as a failure.
#[derive(Clone, Copy, Debug, PartialEq, Eq, Structural)]
pub enum CdnError {
    /// A recipe with this (case-insensitive) name already has a folder.
    AlreadyExists,
    /// The operation targets a recipe the index does not know.
    RecipeDoesntExist,
    /// A named image is absent from the recipe's folder.
    ImageDoesntExist,
    /// The uploaded bytes could not be decoded as an image.
    UnsupportedImageFormat,
    /// The recipe identifier fails the naming constraints.
    InvalidName,
    /// A filesystem or serialization failure.
    InternalError,
}

impl CdnError {
    /// The HTTP status each error maps to.
    pub open spec fn spec_http_status(self) -> u16 {
        match self {
            CdnError::AlreadyExists => 409,
            CdnError::RecipeDoesntExist => 404,
            CdnError::ImageDoesntExist => 404,
            CdnError::UnsupportedImageFormat => 501,
            CdnError::InvalidName => 400,
            CdnError::InternalError => 500,
        }
    }

    /// The HTTP status code a route handler should answer with.
    pub fn http_status(&self) -> (code: u16)
        ensures
            code == self.spec_http_status(),
    {
        match self {
            CdnError::AlreadyExists => 409,
            CdnError::RecipeDoesntExist => 404,
            CdnError::ImageDoesntExist => 404,
            CdnError::UnsupportedImageFormat => 501,
            CdnError::InvalidName => 400,
            CdnError::InternalError => 500,
        }
    }

    /// A short human-readable description.
    pub fn message(&self) -> (m: &'static str)
        ensures
            self is AlreadyExists ==> m@ == "Already exists"@,
            self is RecipeDoesntExist ==> m@ == "Recipe doesn't exist"@,
            self is ImageDoesntExist ==> m@ == "image doesn't exist"@,
            self is UnsupportedImageFormat ==> m@ == "Unsupported image format"@,
            self is InvalidName ==> m@ == "Invalid name"@,
            self is InternalError ==> m@ == "Internal error"@,
    {
        match self {
            CdnError::AlreadyExists => "Already exists",
            CdnError::RecipeDoesntExist => "Recipe doesn't exist",
            CdnError::ImageDoesntExist => "image doesn't exist",
            CdnError::UnsupportedImageFormat => "Unsupported image format",
            CdnError::InvalidName => "Invalid name",
            CdnError::InternalError => "Internal error",
        }
    }
}

/// What `str::to_lowercase` returns for these characters; the store keys
/// recipe folders by the lower-cased recipe name.
pub uninterp spec fn lower_of(s: Seq<char>) -> Seq<char>;

/// Relies on str::to_lowercase: the result depends on the characters alone.
#[verifier::external_body]
fn lowercase(s: &str) -> (r: String)
    ensures
        r@ == lower_of(s@),
{
    s.to_lowercase()
}

/// The canonical stored encoding's container magic: `RIFF` at offset 0 and
/// `WEBP` at offset 8.  This is exactly the check the image decoder's
/// format guesser applies for this format.
pub open spec fn is_webp_bytes(b: Seq<u8>) -> bool {
    &&& b.len() >= 12
    &&& b[0] == 0x52u8 && b[1] == 0x49u8 && b[2] == 0x46u8 && b[3] == 0x46u8
    &&& b[8] == 0x57u8 && b[9] == 0x45u8 && b[10] == 0x42u8 && b[11] == 0x50u8
}

/// Whether an uploaded buffer is already in the canonical encoding.
pub fn is_webp(data: &[u8]) -> (r: bool)
    ensures
        r == is_webp_bytes(data@),
{
    data.len() >= 12 && data[0] == 0x52 && data[1] == 0x49 && data[2] == 0x46 && data[3] == 0x46
        && data[8] == 0x57 && data[9] == 0x45 && data[10] == 0x42 && data[11] == 0x50
}

/// The normalizer's verdict on an uploaded buffer.
#[derive(Debug)]
pub enum Normalized {
    /// Already canonical: store these bytes unchanged.
    Ready(Vec<u8>),
    /// Not canonical: the caller must decode and re-encode the buffer (at
    /// quality 70), then report back through [`transcode_outcome`].
    Transcode,
}

/// Decides what normalization an uploaded buffer needs: a buffer already in
/// the canonical encoding passes through byte for byte; anything else must
/// be transcoded.
pub fn normalize_upload(data: &[u8]) -> (r: Normalized)
    ensures
        match r {
            Normalized::Ready(b) => is_webp_bytes(data@) && b@ == data@,
            Normalized::Transcode => !is_webp_bytes(data@),
        },
{
    if is_webp(data) {
        Normalized::Ready(vstd::slice::slice_to_vec(data))
    } else {
        Normalized::Transcode
    }
}

/// Maps the transcoder's outcome: a buffer that could not be decoded as an
/// image is an unsupported format, and nothing may be stored for it.
pub fn transcode_outcome(r: Option<Vec<u8>>) -> (out: Result<Vec<u8>, CdnError>)
    ensures
        match r {
            Some(b) => out is Ok && out.unwrap()@ == b@,
            None => out == Err::<Vec<u8>, CdnError>(CdnError::UnsupportedImageFormat),
        },
{
    match r {
        Some(b) => Ok(b),
        None => Err(CdnError::UnsupportedImageFormat),
    }
}

/// Maps a filesystem outcome the caller reports: any failed create, write
/// or remove is an internal error.
pub fn fs_outcome(ok: bool) -> (r: Result<(), CdnError>)
    ensures
        ok ==> r == Ok::<(), CdnError>(()),
        !ok ==> r == Err::<(), CdnError>(CdnError::InternalError),
{
    if ok {
        Ok(())
    } else {
        Err(CdnError::InternalError)
    }
}

/// Decides one step of a bulk image deletion, given what the caller found
/// on disk: a file that is not there is `ImageDoesntExist`; one that could
/// not be removed is an internal error.  The metadata index is never
/// touched: deleted sequence numbers are not recycled.
pub fn delete_image_step(present: bool, removed: bool) -> (r: Result<(), CdnError>)
    ensures
        match r {
            Ok(_) => present && removed,
            Err(e) => if !present {
                e == CdnError::ImageDoesntExist
            } else {
                e == CdnError::InternalError && !removed
            },
        },
{
    if !present {
        Err(CdnError::ImageDoesntExist)
    } else if !removed {
        Err(CdnError::InternalError)
    } else {
        Ok(())
    }
}

/// The asset store: the storage root and the metadata index.
///
/// The store holds no file handles; each mutating operation is a
/// `*_prepare`/`*_begin` step that decides and updates the index, and a
/// `*_commit` step fed with the outcome of the filesystem work the caller
/// performed in between.
pub struct Cdn {
    /// The storage root; every path the store hands out starts with it.
    pub path: String,
    meta: MetaIndex,
}

impl View for Cdn {
    type V = Map<Seq<char>, u32>;

    /// The store's meaning: the metadata index's map.
    closed spec fn view(&self) -> Map<Seq<char>, u32> {
        self.meta@
    }
}

impl Cdn {
    /// The storage root as the contracts speak of it.
    pub closed spec fn root(&self) -> Seq<char> {
        self.path@
    }

    /// The index's entry names are pairwise distinct.
    pub closed spec fn wf(&self) -> bool {
        self.meta.wf()
    }

    /// The index's entries in stored order.
    pub closed spec fn entries(&self) -> Seq<(Seq<char>, u32)> {
        self.meta.entries_view()
    }

    /// A store over the given root with the given (loaded) index.
    pub fn new(path: String, meta: MetaIndex) -> (r: Cdn)
        requires
            meta.wf(),
        ensures
            r.wf(),
            r@ == meta@,
            r.entries() == meta.entries_view(),
            r.root() == path@,
    {
        Cdn { path, meta }
    }

    /// The path of the serialized index file under the root.
    pub fn meta_file_path(&self) -> (r: String)
        ensures
            r@ == self.root() + "meta.cbor"@,
    {
        let mut s = self.path.clone();
        s.append("meta.cbor");
        s
    }

    /// The path of a recipe's folder: the root, then the lower-cased name.
    pub fn recipe_dir_path(&self, recipe_name: &str) -> (r: String)
        ensures
            r@ == self.root() + lower_of(recipe_name@),
    {
        let mut s = self.path.clone();
        let low = lowercase(recipe_name);
        s.append(low.as_str());
        s
    }

    /// The path of a named file inside a recipe's folder: the folder is the
    /// lower-cased recipe name, the file name is used as given.
    pub fn stored_file_path(&self, recipe_name: &str, file_name: &str) -> (r: String)
        ensures
            r@ == self.root() + lower_of(recipe_name@) + "/"@ + file_name@,
    {
        let mut s = self.path.clone();
        let low = lowercase(recipe_name);
        s.append(low.as_str());
        s.append("/");
        s.append(file_name);
        s
    }

    /// The path of a recipe's icon file.
    pub fn icon_file_path(&self, recipe_name: &str) -> (r: String)
        ensures
            r@ == self.root() + lower_of(recipe_name@) + "/"@ + "icon"@,
    {
        self.stored_file_path(recipe_name, "icon")
    }

    /// The path of a numbered image file.
    pub fn image_file_path(&self, recipe_name: &str, id: u32) -> (r: String)
        ensures
            r@ == self.root() + lower_of(recipe_name@) + "/"@ + spec_decimal(id as nat),
    {
        let d = u32_to_decimal(id);
        self.stored_file_path(recipe_name, d.as_str())
    }

    /// First step of creating a recipe: hands back the lower-cased name
    /// whose folder the caller must create, or `AlreadyExists` when the
    /// index already has that name.
    pub fn create_recipe_prepare(&self, recipe_name: &str) -> (r: Result<String, CdnError>)
        ensures
            match r {
                Ok(low) => low@ == lower_of(recipe_name@) && !self@.contains_key(
                    lower_of(recipe_name@),
                ),
                Err(e) => e == CdnError::AlreadyExists && self@.contains_key(
                    lower_of(recipe_name@),
                ),
            },
    {
        let low = lowercase(recipe_name);
        if self.meta.contains(low.as_str()) {
            Err(CdnError::AlreadyExists)
        } else {
            Ok(low)
        }
    }

    /// Second step of creating a recipe: only after the folder was created
    /// does the index gain the entry, with its counter at zero.  A failed
    /// folder creation leaves the index unchanged.
    pub fn create_recipe_commit(&mut self, low: String, dir_created: bool) -> (r: Result<
        (),
        CdnError,
    >)
        requires
            old(self).wf(),
        ensures
            final(self).wf(),
            final(self).root() == old(self).root(),
            match r {
                Ok(_) => {
                    &&& dir_created
                    &&& !old(self)@.contains_key(low@)
                    &&& final(self)@ == old(self)@.insert(low@, 0u32)
                    &&& final(self).entries() == old(self).entries().push((low@, 0u32))
                },
                Err(e) => {
                    &&& final(self)@ == old(self)@
                    &&& final(self).entries() == old(self).entries()
                    &&& if old(self)@.contains_key(low@) {
                        e == CdnError::AlreadyExists
                    } else {
                        e == CdnError::InternalError && !dir_created
                    }
                },
            },
    {
        if self.meta.contains(low.as_str()) {
            return Err(CdnError::AlreadyExists);
        }
        if !dir_created {
            return Err(CdnError::InternalError);
        }
        self.meta.insert_new(low, 0);
        Ok(())
    }

    /// First step of deleting a recipe: the recipe is looked up by its
    /// lower-cased name, the key under which it was created.
    /// `RecipeDoesntExist` when the index does not know it.  On success the
    /// caller must remove the recipe's folder tree.
    pub fn delete_recipe_prepare(&self, recipe_name: &str) -> (r: Result<(), CdnError>)
        ensures
            match r {
                Ok(_) => self@.contains_key(lower_of(recipe_name@)),
                Err(e) => e == CdnError::RecipeDoesntExist && !self@.contains_key(
                    lower_of(recipe_name@),
                ),
            },
    {
        let low = lowercase(recipe_name);
        if self.meta.contains(low.as_str()) {
            Ok(())
        } else {
            Err(CdnError::RecipeDoesntExist)
        }
    }

    /// Second step of deleting a recipe: only after the folder was removed
    /// does the lower-cased entry leave the index.  On any error the index
    /// is unchanged, and a delete of an unknown recipe changes nothing at
    /// all.
    pub fn delete_recipe_commit(&mut self, recipe_name: &str, dir_removed: bool) -> (r: Result<
        (),
        CdnError,
    >)
        requires
            old(self).wf(),
        ensures
            final(self).wf(),
            final(self).root() == old(self).root(),
            match r {
                Ok(_) => {
                    &&& dir_removed
                    &&& old(self)@.contains_key(lower_of(recipe_name@))
                    &&& final(self)@ == old(self)@.remove(lower_of(recipe_name@))
                    &&& exists|i: int| {
                        &&& 0 <= i < old(self).entries().len()
                        &&& (#[trigger] old(self).entries()[i]).0 == lower_of(recipe_name@)
                        &&& final(self).entries() == old(self).entries().remove(i)
                    }
                },
                Err(e) => {
                    &&& final(self)@ == old(self)@
                    &&& final(self).entries() == old(self).entries()
                    &&& if !old(self)@.contains_key(lower_of(recipe_name@)) {
                        e == CdnError::RecipeDoesntExist
                    } else {
                        e == CdnError::InternalError && !dir_removed
                    }
                },
            },
    {
        let low = lowercase(recipe_name);
        if !self.meta.contains(low.as_str()) {
            return Err(CdnError::RecipeDoesntExist);
        }
        if !dir_removed {
            return Err(CdnError::InternalError);
        }
        self.meta.remove(low.as_str());
        proof {
            let i = choose|i: int| {
                &&& 0 <= i < old(self).meta.entries_view().len()
                &&& (#[trigger] old(self).meta.entries_view()[i]).0 == low@
                &&& self.meta.entries_view() == old(self).meta.entries_view().remove(i)
            };
            assert((old(self).entries()[i]).0 == lower_of(recipe_name@));
            assert(self.entries() == old(self).entries().remove(i));
        }
        Ok(())
    }

    /// Prepares an icon upload: the recipe, looked up by its lower-cased
    /// name, must exist; the buffer is then normalized
    /// ([`normalize_upload`]).  No counter is consumed.  The caller writes
    /// the canonical bytes over the recipe's `icon` file.
    pub fn upload_icon_prepare(&self, recipe_name: &str, icon_data: &[u8]) -> (r: Result<
        Normalized,
        CdnError,
    >)
        ensures
            match r {
                Ok(norm) => {
                    &&& self@.contains_key(lower_of(recipe_name@))
                    &&& match norm {
                        Normalized::Ready(b) => is_webp_bytes(icon_data@) && b@ == icon_data@,
                        Normalized::Transcode => !is_webp_bytes(icon_data@),
                    }
                },
                Err(e) => e == CdnError::RecipeDoesntExist && !self@.contains_key(
                    lower_of(recipe_name@),
                ),
            },
    {
        let low = lowercase(recipe_name);
        if !self.meta.contains(low.as_str()) {
            return Err(CdnError::RecipeDoesntExist);
        }
        Ok(normalize_upload(icon_data))
    }

    /// First step of an image upload: hands out the next sequence number of
    /// the recipe, looked up by its lower-cased name, and advances the
    /// counter, before anything is written, so a number is never handed out
    /// twice even when the rest of the upload fails.  `RecipeDoesntExist`
    /// when the index does not know the name; `InternalError` when the
    /// counter is exhausted.
    pub fn upload_image_begin(&mut self, recipe_name: &str) -> (r: Result<u32, CdnError>)
        requires
            old(self).wf(),
        ensures
            final(self).wf(),
            final(self).root() == old(self).root(),
            match r {
                Ok(id) => {
                    &&& old(self)@.contains_key(lower_of(recipe_name@))
                    &&& id == old(self)@[lower_of(recipe_name@)]
                    &&& id < u32::MAX
                    &&& final(self)@ == old(self)@.insert(lower_of(recipe_name@), (id + 1) as u32)
                    &&& exists|i: int| {
                        &&& 0 <= i < old(self).entries().len()
                        &&& #[trigger] old(self).entries()[i] == (lower_of(recipe_name@), id)
                        &&& final(self).entries() == old(self).entries().update(
                            i,
                            (lower_of(recipe_name@), (id + 1) as u32),
                        )
                    }
                },
                Err(e) => {
                    &&& final(self)@ == old(self)@
                    &&& final(self).entries() == old(self).entries()
                    &&& if !old(self)@.contains_key(lower_of(recipe_name@)) {
                        e == CdnError::RecipeDoesntExist
                    } else {
                        e == CdnError::InternalError && old(self)@[lower_of(recipe_name@)]
                            == u32::MAX
                    }
                },
            },
    {
        let low = lowercase(recipe_name);
        if !self.meta.contains(low.as_str()) {
            return Err(CdnError::RecipeDoesntExist);
        }
        match self.meta.take_next_id(low.as_str()) {
            Some(id) => {
                proof {
                    let i = choose|i: int| {
                        &&& 0 <= i < old(self).meta.entries_view().len()
                        &&& #[trigger] old(self).meta.entries_view()[i] == (low@, id)
                        &&& self.meta.entries_view() == old(self).meta.entries_view().update(
                            i,
                            (low@, (id + 1) as u32),
                        )
                    };
                    assert(old(self).entries()[i] == (lower_of(recipe_name@), id));
                    assert(self.entries() == old(self).entries().update(
                        i,
                        (lower_of(recipe_name@), (id + 1) as u32),
                    ));
                }
                Ok(id)
            },
            None => Err(CdnError::InternalError),
        }
    }

    /// The bytes to persist as the serialized index: a full, fresh snapshot
    /// of the whole in-memory index, never an incremental patch.  After a
    /// successful transaction the caller truncates the index file and
    /// writes exactly these bytes; a failed write is reported through
    /// [`fs_outcome`] as `InternalError`.
    pub fn serialize_index(&self) -> (r: Vec<u8>)
        ensures
            r@ == spec_index_bytes(self.entries()),
    {
        self.meta.serialize()
    }

    /// Rebuilds the index from the bytes of the serialized index file;
    /// `InternalError` when they are not a well-formed snapshot.
    pub fn load_index(bytes: &[u8]) -> (r: Result<MetaIndex, CdnError>)
        ensures
            match r {
                Ok(ix) => {
                    &&& ix.wf()
                    &&& spec_parse_index(bytes@) == Some(ix.entries_view())
                    &&& ix@ == map_of_views(ix.entries_view())
                },
                Err(e) => {
                    &&& e == CdnError::InternalError
                    &&& (spec_parse_index(bytes@) is None || !views_unique(
                        spec_parse_index(bytes@).unwrap(),
                    ))
                },
            },
    {
        match crate::cbor::decode_index(bytes) {
            None => Err(CdnError::InternalError),
            Some(v) => match MetaIndex::from_entry_list(v) {
                None => Err(CdnError::InternalError),
                Some(ix) => {
                    proof {
                        ix.lemma_map_is_of_views();
                    }
                    Ok(ix)
                },
            },
        }
    }
}

/// The name occurs somewhere in the listing.
pub open spec fn name_listed(name: String, listing: Seq<String>) -> bool {
    exists|j: int| 0 <= j < listing.len() && listing[j]@ == name@
}

/// Every requested name occurs in the listing.
pub open spec fn all_present(names: Seq<String>, listing: Seq<String>) -> bool
    decreases names.len(),
{
    if names.len() == 0 {
        true
    } else {
        name_listed(names[0], listing) && all_present(names.drop_first(), listing)
    }
}

fn listing_contains(listing: &[String], name: &String) -> (r: bool)
    ensures
        r == name_listed(*name, listing@),
{
    let n = listing.len();
    let mut j: usize = 0;
    while j < n
        invariant
            j <= n,
            n == listing@.len(),
            forall|k: int| 0 <= k < j ==> listing@[k]@ != name@,
        decreases n - j,
    {
        if listing[j] == *name {
            return true;
        }
        j += 1;
    }
    false
}

/// Whether every requested image name occurs in the directory listing:
/// a bulk image deletion is refused outright (`ImageDoesntExist`) unless
/// all its targets are present.
pub fn all_listed(image_names: &[String], listing: &[String]) -> (r: bool)
    ensures
        r == all_present(image_names@, listing@),
{
    let n = image_names.len();
    let mut i: usize = 0;
    proof {
        assert(image_names@.skip(0) =~= image_names@);
    }
    while i < n
        invariant
            i <= n,
            n == image_names@.len(),
            all_present(image_names@, listing@) == all_present(
                image_names@.skip(i as int),
                listing@,
            ),
        decreases n - i,
    {
        let ghost rest = image_names@.skip(i as int);
        let nm = &image_names[i];
        let found = listing_contains(listing, nm);
        proof {
            assert(rest[0] == image_names@[i as int]);
            assert(rest.drop_first() =~= image_names@.skip(i + 1));
        }
        if !found {
            return false;
        }
        i += 1;
    }
    proof {
        assert(image_names@.skip(n as int).len() == 0);
    }
    true
}

/// After a recipe is created, a second creation under a case-insensitively
/// equal name (the same lower-cased key) finds the entry and is refused
/// with `AlreadyExists` (see `create_recipe_prepare`); the index holds
/// exactly the one new entry, with its counter at zero.
pub proof fn lemma_duplicate_create_rejected(
    pre: Map<Seq<char>, u32>,
    post: Map<Seq<char>, u32>,
    low: Seq<char>,
)
    requires
        !pre.contains_key(low),
        post == pre.insert(low, 0u32),
    ensures
        post.contains_key(low),
        post[low] == 0,
        post.remove(low) =~= pre,
{
}

proof fn lemma_upload_run_prefix(
    ms: Seq<Map<Seq<char>, u32>>,
    ids: Seq<u32>,
    name: Seq<char>,
    j: int,
)
    requires
        ms.len() == ids.len() + 1,
        forall|k: int|
            0 <= k < ids.len() ==> {
                &&& (#[trigger] ms[k]).contains_key(name)
                &&& ids[k] == ms[k][name]
                &&& ids[k] < u32::MAX
                &&& ms[k + 1] == ms[k].insert(name, (ids[k] + 1) as u32)
            },
        0 <= j < ids.len(),
    ensures
        ids[j] as int == ids[0] as int + j,
    decreases j,
{
    if j > 0 {
        lemma_upload_run_prefix(ms, ids, name, j - 1);
        assert(ms[j] == ms[j - 1].insert(name, (ids[j - 1] + 1) as u32));
    }
}

/// Any run of successful image uploads to one recipe receives consecutive
/// sequence numbers: the `j`-th upload of the run gets the starting counter
/// plus `j`, so `n` uploads receive `n` pairwise distinct numbers with no
/// gap wider than `n`.  `ms` are the index states the run passes through
/// and `ids` the numbers handed out, exactly as `upload_image_begin`'s
/// contract relates them.
pub proof fn lemma_upload_run_distinct(ms: Seq<Map<Seq<char>, u32>>, ids: Seq<u32>, name: Seq<char>)
    requires
        ms.len() == ids.len() + 1,
        forall|k: int|
            0 <= k < ids.len() ==> {
                &&& (#[trigger] ms[k]).contains_key(name)
                &&& ids[k] == ms[k][name]
                &&& ids[k] < u32::MAX
                &&& ms[k + 1] == ms[k].insert(name, (ids[k] + 1) as u32)
            },
    ensures
        forall|j: int| 0 <= j < ids.len() ==> (#[trigger] ids[j]) as int == ids[0] as int + j,
        forall|p: int, q: int| 0 <= p < q < ids.len() ==> ids[p] != ids[q],
{
    assert forall|j: int| 0 <= j < ids.len() implies (#[trigger] ids[j]) as int == ids[0] as int
        + j by {
        lemma_upload_run_prefix(ms, ids, name, j);
    }
}

/// A snapshot written from the in-memory index reads back to exactly the
/// same entries, and so to the same map: after a restart, the reloaded
/// index matches the last persisted state.  (The length bounds only say
/// the index and each name fit in memory.)
pub proof fn lemma_snapshot_round_trip(es: Seq<(Seq<char>, u32)>)
    requires
        es.len() < pow256(8),
        forall|i: int| 0 <= i < es.len() ==> encode_utf8(#[trigger] es[i].0).len() < pow256(8),
    ensures
        spec_parse_index(spec_index_bytes(es)) == Some(es),
{
    lemma_parse_index_of_encode(es);
}

} // verus!
