use vstd::prelude::*;
use crate::names::{split_name, split_name_spec};
use crate::photo::{filter_ext, Photo, PhotoDir, PhotoDirView, PhotoView};

verus! {

/// The identity of a photo: `<dir>/<base name>.<filter extension>`, whichever
/// of its files was seen.
pub open spec fn identity_of(d: PhotoDirView, stem: Seq<char>) -> Seq<char> {
    d.path + seq!['/'] + stem + seq!['.'] + filter_ext(d)
}

/// The catalog after one more file of base name `stem` under identity `key`;
/// `raw` and `jpg` tell which kinds the file counts as.
pub open spec fn observe(
    m: Map<Seq<char>, PhotoView>,
    key: Seq<char>,
    stem: Seq<char>,
    raw: bool,
    jpg: bool,
) -> Map<Seq<char>, PhotoView> {
    if m.contains_key(key) {
        let old = m[key];
        if (old.has_raw && jpg) || (old.has_jpg && raw) {
            m.insert(key, PhotoView { file_name: old.file_name, has_raw: true, has_jpg: true })
        } else {
            m
        }
    } else {
        m.insert(key, PhotoView { file_name: stem, has_raw: raw, has_jpg: jpg })
    }
}

/// The catalog after the file `name`; a name without an extension is an error.
pub open spec fn scan_step(d: PhotoDirView, m: Map<Seq<char>, PhotoView>, name: Seq<char>) -> Result<
    Map<Seq<char>, PhotoView>,
    Seq<char>,
> {
    match split_name_spec(name) {
        None => Err(name),
        Some((stem, ext)) => if ext == d.raw_ext || ext == d.img_ext {
            Ok(observe(m, identity_of(d, stem), stem, ext == d.raw_ext, ext == d.img_ext))
        } else {
            Ok(m)
        },
    }
}

/// The catalog of the files `names`, taken in order from an empty one; the
/// first name without an extension is the error.
pub open spec fn scan(d: PhotoDirView, names: Seq<Seq<char>>) -> Result<
    Map<Seq<char>, PhotoView>,
    Seq<char>,
>
    decreases names.len(),
{
    if names.len() == 0 {
        Ok(Map::empty())
    } else {
        match scan(d, names.drop_last()) {
            Err(e) => Err(e),
            Ok(m) => scan_step(d, m, names.last()),
        }
    }
}

/// Every record holds a flag and sits under the identity of its base name.
pub open spec fn catalog_of_dir(d: PhotoDirView, m: Map<Seq<char>, PhotoView>) -> bool {
    forall|k: Seq<char>| #[trigger]
        m.contains_key(k) ==> (m[k].has_raw || m[k].has_jpg) && k == identity_of(d, m[k].file_name)
}

pub open spec fn name_views(names: Seq<String>) -> Seq<Seq<char>> {
    names.map_values(|s: String| s@)
}

/// Why a directory could not be catalogued.
#[derive(Debug)]
pub enum CatalogError {
    /// A file name without an extension or without a base name.
    MalformedName(String),
}

/// The photos of one directory, by identity, each identity once.
pub struct Catalog {
    entries: Vec<(String, Photo)>,
    model: Ghost<Map<Seq<char>, PhotoView>>,
}

impl View for Catalog {
    type V = Map<Seq<char>, PhotoView>;

    closed spec fn view(&self) -> Map<Seq<char>, PhotoView> {
        self.model@
    }
}

impl Catalog {
    /// The entries hold each identity once, and exactly the records of the view.
    pub closed spec fn wf(&self) -> bool {
        &&& forall|i: int, j: int|
            0 <= i < j < self.entries@.len() ==> #[trigger] self.entries@[i].0@
                != #[trigger] self.entries@[j].0@
        &&& forall|i: int|
            0 <= i < self.entries@.len() ==> self.model@.contains_key(#[trigger] self.entries@[i].0@)
                && self.model@[self.entries@[i].0@] == self.entries@[i].1@
        &&& forall|k: Seq<char>| #[trigger]
            self.model@.contains_key(k) ==> exists|i: int|
                0 <= i < self.entries@.len() && #[trigger] self.entries@[i].0@ == k
        &&& self.model@.dom().finite()
        &&& self.model@.dom().len() == self.entries@.len()
    }

    /// The identity of the `i`th entry, in the order identities were first seen.
    pub closed spec fn key_at(&self, i: int) -> Seq<char> {
        self.entries@[i].0@
    }

    /// The entries list each identity of the view once.
    pub proof fn lemma_keys_listed(&self)
        requires
            self.wf(),
        ensures
            forall|i: int, j: int|
                0 <= i < j < self@.dom().len() ==> #[trigger] self.key_at(i) != #[trigger] self.key_at(
                    j,
                ),
            forall|i: int| 0 <= i < self@.dom().len() ==> self@.contains_key(#[trigger] self.key_at(i)),
            forall|k: Seq<char>| #[trigger]
                self@.contains_key(k) ==> exists|i: int|
                    0 <= i < self@.dom().len() && #[trigger] self.key_at(i) == k,
    {
        assert forall|k: Seq<char>| #[trigger] self@.contains_key(k) implies exists|i: int|
            0 <= i < self@.dom().len() && #[trigger] self.key_at(i) == k by {
            let i = choose|i: int| 0 <= i < self.entries@.len() && #[trigger] self.entries@[i].0@ == k;
            assert(self.key_at(i) == k);
        }
    }

    pub fn new() -> (r: Catalog)
        ensures
            r.wf(),
            r@ == Map::<Seq<char>, PhotoView>::empty(),
    {
        Catalog { entries: Vec::new(), model: Ghost(Map::empty()) }
    }

    /// The number of photos.
    pub fn len(&self) -> (r: usize)
        requires
            self.wf(),
        ensures
            r == self@.dom().len(),
    {
        self.entries.len()
    }

    fn find(&self, key: &String) -> (r: Option<usize>)
        requires
            self.wf(),
        ensures
            match r {
                Some(i) => i < self.entries@.len() && self.entries@[i as int].0@ == key@,
                None => !self@.contains_key(key@),
            },
    {
        let mut i: usize = 0;
        while i < self.entries.len()
            invariant
                i <= self.entries@.len(),
                forall|j: int| 0 <= j < i ==> #[trigger] self.entries@[j].0@ != key@,
            decreases self.entries@.len() - i,
        {
            if self.entries[i].0 == *key {
                return Some(i);
            }
            i = i + 1;
        }
        None
    }

    /// The record under an identity.
    pub fn get(&self, key: &String) -> (r: Option<&Photo>)
        requires
            self.wf(),
        ensures
            match r {
                Some(p) => self@.contains_key(key@) && p@ == self@[key@],
                None => !self@.contains_key(key@),
            },
    {
        match self.find(key) {
            Some(i) => Some(&self.entries[i].1),
            None => None,
        }
    }

    /// The `i`th identity and its record, in the order they were first seen.
    pub fn entry(&self, i: usize) -> (r: (&String, &Photo))
        requires
            self.wf(),
            i < self@.dom().len(),
        ensures
            r.0@ == self.key_at(i as int),
            self@.contains_key(r.0@),
            self@[r.0@] == r.1@,
    {
        (&self.entries[i].0, &self.entries[i].1)
    }

    /// Records one file of base name `stem` under identity `key`.
    pub fn observe(&mut self, key: String, stem: String, raw: bool, jpg: bool)
        requires
            old(self).wf(),
        ensures
            final(self).wf(),
            final(self)@ == observe(old(self)@, key@, stem@, raw, jpg),
    {
        match self.find(&key) {
            Some(i) => {
                let old_raw = self.entries[i].1.has_raw;
                let old_jpg = self.entries[i].1.has_jpg;
                if (old_raw && jpg) || (old_jpg && raw) {
                    let ghost m = self.model@;
                    let ghost old_e = self.entries@;
                    let name = self.entries[i].1.file_name.clone();
                    let rec = Photo { file_name: name, has_raw: true, has_jpg: true };
                    self.model = Ghost(m.insert(key@, rec@));
                    self.entries.set(i, (key, rec));
                    proof {
                        assert(self.model@.dom() =~= m.dom());
                        assert forall|j: int| 0 <= j < self.entries@.len() implies
                            #[trigger] self.entries@[j].0@ == old_e[j].0@ by {}
                        assert forall|a: int, b: int|
                            0 <= a < b < self.entries@.len() implies #[trigger] self.entries@[a].0@
                                != #[trigger] self.entries@[b].0@ by {
                            assert(old_e[a].0@ != old_e[b].0@);
                        }
                        assert forall|k: Seq<char>| #[trigger]
                            self.model@.contains_key(k) implies exists|j: int|
                                0 <= j < self.entries@.len() && #[trigger] self.entries@[j].0@
                                    == k by {
                            assert(m.contains_key(k));
                            let j = choose|j: int|
                                0 <= j < old_e.len() && #[trigger] old_e[j].0@ == k;
                            assert(self.entries@[j].0@ == k);
                        }
                    }
                }
            },
            None => {
                let ghost m = self.model@;
                let ghost old_e = self.entries@;
                let rec = Photo { file_name: stem, has_raw: raw, has_jpg: jpg };
                self.model = Ghost(m.insert(key@, rec@));
                self.entries.push((key, rec));
                proof {
                    let n = self.entries@.len() - 1;
                    assert(self.entries@[n].0@ == key@);
                    assert forall|j: int| 0 <= j < n implies
                        #[trigger] self.entries@[j] == old_e[j] by {}
                    assert forall|j: int| 0 <= j < n implies
                        #[trigger] old_e[j].0@ != key@ by {
                        assert(m.contains_key(old_e[j].0@));
                    }
                    assert forall|a: int, b: int|
                        0 <= a < b < self.entries@.len() implies #[trigger] self.entries@[a].0@
                            != #[trigger] self.entries@[b].0@ by {
                        assert(self.entries@[a] == old_e[a]);
                        if b < n {
                            assert(self.entries@[b] == old_e[b]);
                            assert(old_e[a].0@ != old_e[b].0@);
                        }
                    }
                    assert forall|k: Seq<char>| #[trigger]
                        self.model@.contains_key(k) implies exists|i: int|
                            0 <= i < self.entries@.len() && #[trigger] self.entries@[i].0@ == k by {
                        if k != key@ {
                            assert(m.contains_key(k));
                            let i = choose|i: int| 0 <= i < n && #[trigger] old_e[i].0@ == k;
                            assert(self.entries@[i] == old_e[i]);
                        }
                    }
                    assert forall|j: int| 0 <= j < self.entries@.len() implies self.model@.contains_key(
                        #[trigger] self.entries@[j].0@) && self.model@[self.entries@[j].0@]
                        == self.entries@[j].1@ by {
                        if j < n {
                            assert(self.entries@[j] == old_e[j]);
                            assert(old_e[j].0@ != key@);
                        }
                    }
                    assert(self.model@.dom() =~= m.dom().insert(key@));
                    assert(self.model@.dom().len() == m.dom().len() + 1);
                }
            },
        }
    }
}

/// The identity of a photo of base name `stem` in the directory of `dir`.
pub fn identity(dir: &PhotoDir, stem: &String) -> (r: String)
    ensures
        r@ == identity_of(dir@, stem@),
{
    let mut s = dir.path.clone();
    s.append("/");
    s.append(stem.as_str());
    s.append(".");
    s.append(dir.filter_extension().as_str());
    proof {
        reveal_strlit("/");
        reveal_strlit(".");
        assert(s@ =~= identity_of(dir@, stem@));
    }
    s
}

/// An error on a prefix of the names is the error of the whole scan.
proof fn lemma_scan_err_extends(d: PhotoDirView, names: Seq<Seq<char>>, i: int)
    requires
        0 <= i <= names.len(),
        scan(d, names.subrange(0, i)) is Err,
    ensures
        scan(d, names) == scan(d, names.subrange(0, i)),
    decreases names.len(),
{
    if i == names.len() {
        assert(names.subrange(0, i) =~= names);
    } else {
        assert(names.drop_last().subrange(0, i) =~= names.subrange(0, i));
        lemma_scan_err_extends(d, names.drop_last(), i);
    }
}

/// Every catalog that a scan yields is one of the directory's.
pub proof fn lemma_scan_consistent(d: PhotoDirView, names: Seq<Seq<char>>)
    requires
        scan(d, names) is Ok,
    ensures
        catalog_of_dir(d, scan(d, names)->Ok_0),
    decreases names.len(),
{
    if names.len() > 0 {
        lemma_scan_consistent(d, names.drop_last());
        let m = scan(d, names.drop_last())->Ok_0;
        let r = scan(d, names)->Ok_0;
        assert forall|k: Seq<char>| #[trigger] r.contains_key(k) implies (r[k].has_raw
            || r[k].has_jpg) && k == identity_of(d, r[k].file_name) by {
            if m.contains_key(k) {
                assert(m[k].has_raw || m[k].has_jpg);
            }
        }
    }
}

/// Builds the catalog of a directory from the names of the files in it.
/// Names whose extension is neither configured one are passed over; the
/// first name without an extension or base name stops the scan.
pub fn photo_database(dir: &PhotoDir, names: &Vec<String>) -> (r: Result<Catalog, CatalogError>)
    ensures
        match r {
            Ok(c) => {
                &&& c.wf()
                &&& scan(dir@, name_views(names@)) == Ok::<_, Seq<char>>(c@)
                &&& catalog_of_dir(dir@, c@)
            },
            Err(CatalogError::MalformedName(n)) => scan(dir@, name_views(names@)) == Err::<
                Map<Seq<char>, PhotoView>,
                _,
            >(n@),
        },
{
    let ghost nv = name_views(names@);
    let mut cat = Catalog::new();
    let mut i: usize = 0;
    assert(nv.subrange(0, 0) =~= Seq::<Seq<char>>::empty());
    while i < names.len()
        invariant
            cat.wf(),
            i <= names@.len(),
            nv == name_views(names@),
            scan(dir@, nv.subrange(0, i as int)) == Ok::<_, Seq<char>>(cat@),
        decreases names@.len() - i,
    {
        proof {
            assert(nv.subrange(0, i + 1).drop_last() =~= nv.subrange(0, i as int));
            assert(nv.subrange(0, i + 1).last() == names@[i as int]@);
        }
        let name = &names[i];
        match split_name(name.as_str()) {
            None => {
                proof {
                    lemma_scan_err_extends(dir@, nv, i + 1);
                }
                return Err(CatalogError::MalformedName(name.clone()));
            },
            Some((stem, ext)) => {
                let raw = ext == dir.raw_ext;
                let jpg = ext == dir.img_ext;
                if raw || jpg {
                    let key = identity(dir, &stem);
                    cat.observe(key, stem, raw, jpg);
                }
            },
        }
        i = i + 1;
    }
    proof {
        assert(nv.subrange(0, i as int) =~= nv);
        lemma_scan_consistent(dir@, nv);
    }
    Ok(cat)
}

/// A RAW file and an IMG file of one photo give the same record whichever
/// is seen first, and that record has both flags.
pub proof fn lemma_merge_either_order(
    m: Map<Seq<char>, PhotoView>,
    key: Seq<char>,
    stem: Seq<char>,
)
    requires
        m.contains_key(key) ==> m[key].has_raw || m[key].has_jpg,
    ensures
        observe(observe(m, key, stem, true, false), key, stem, false, true) == observe(
            observe(m, key, stem, false, true),
            key,
            stem,
            true,
            false,
        ),
        observe(observe(m, key, stem, true, false), key, stem, false, true).contains_key(key),
        observe(observe(m, key, stem, true, false), key, stem, false, true)[key].has_raw,
        observe(observe(m, key, stem, true, false), key, stem, false, true)[key].has_jpg,
{
    let a = observe(observe(m, key, stem, true, false), key, stem, false, true);
    let b = observe(observe(m, key, stem, false, true), key, stem, true, false);
    assert(a =~= b);
}

/// Seeing the same kind of file under the same identity a second time
/// changes nothing.
pub proof fn lemma_observe_idempotent(
    m: Map<Seq<char>, PhotoView>,
    key: Seq<char>,
    stem: Seq<char>,
    raw: bool,
    jpg: bool,
)
    ensures
        observe(observe(m, key, stem, raw, jpg), key, stem, raw, jpg) == observe(
            m,
            key,
            stem,
            raw,
            jpg,
        ),
{
    let once = observe(m, key, stem, raw, jpg);
    assert(observe(once, key, stem, raw, jpg) =~= once);
}

/// Scanning the same file name twice in a row gives what scanning it once gives.
pub proof fn lemma_scan_twice(d: PhotoDirView, names: Seq<Seq<char>>, name: Seq<char>)
    ensures
        scan(d, names.push(name).push(name)) == scan(d, names.push(name)),
{
    assert(names.push(name).push(name).drop_last() =~= names.push(name));
    assert(names.push(name).drop_last() =~= names);
    if let Some((stem, ext)) = split_name_spec(name) {
        if let Ok(m) = scan(d, names) {
            lemma_observe_idempotent(
                m,
                identity_of(d, stem),
                stem,
                ext == d.raw_ext,
                ext == d.img_ext,
            );
        }
    }
}

/// A file of base name `stem` with one of the two extensions leaves a record
/// under the identity of `stem` that carries its flag.
pub proof fn lemma_flag_kept(d: PhotoDirView, names: Seq<Seq<char>>, i: int, stem: Seq<char>, ext: Seq<char>)
    requires
        scan(d, names) is Ok,
        0 <= i < names.len(),
        split_name_spec(names[i]) == Some((stem, ext)),
        ext == d.raw_ext || ext == d.img_ext,
    ensures
        ({
            let m = scan(d, names)->Ok_0;
            let k = identity_of(d, stem);
            &&& m.contains_key(k)
            &&& ext == d.raw_ext ==> m[k].has_raw
            &&& ext == d.img_ext ==> m[k].has_jpg
        }),
    decreases names.len(),
{
    let prior = names.drop_last();
    assert(scan(d, prior) is Ok);
    let m0 = scan(d, prior)->Ok_0;
    if i == names.len() - 1 {
        lemma_scan_consistent(d, prior);
        assert(m0.contains_key(identity_of(d, stem)) ==> m0[identity_of(d, stem)].has_raw
            || m0[identity_of(d, stem)].has_jpg);
    } else {
        assert(prior[i] == names[i]);
        lemma_flag_kept(d, prior, i, stem, ext);
    }
}

/// A RAW file and an IMG file of one base name leave one record with both
/// flags, whatever else the directory holds and in whatever order.
pub proof fn lemma_pair_merged(
    d: PhotoDirView,
    names: Seq<Seq<char>>,
    i: int,
    j: int,
    stem: Seq<char>,
)
    requires
        scan(d, names) is Ok,
        0 <= i < names.len(),
        0 <= j < names.len(),
        split_name_spec(names[i]) == Some((stem, d.raw_ext)),
        split_name_spec(names[j]) == Some((stem, d.img_ext)),
    ensures
        scan(d, names)->Ok_0.contains_key(identity_of(d, stem)),
        scan(d, names)->Ok_0[identity_of(d, stem)].has_raw,
        scan(d, names)->Ok_0[identity_of(d, stem)].has_jpg,
{
    lemma_flag_kept(d, names, i, stem, d.raw_ext);
    lemma_flag_kept(d, names, j, stem, d.img_ext);
}

/// A file whose extension is neither configured one leaves the catalog as it was.
pub proof fn lemma_other_files_ignored(d: PhotoDirView, names: Seq<Seq<char>>, name: Seq<char>)
    requires
        split_name_spec(name) is Some,
        split_name_spec(name)->Some_0.1 != d.raw_ext,
        split_name_spec(name)->Some_0.1 != d.img_ext,
    ensures
        scan(d, names.push(name)) == scan(d, names),
{
    assert(names.push(name).drop_last() =~= names);
}

/// `name` has base name `stem` and one of the two configured extensions.
pub open spec fn photo_file_of(d: PhotoDirView, name: Seq<char>, stem: Seq<char>) -> bool {
    match split_name_spec(name) {
        Some((s, e)) => s == stem && (e == d.raw_ext || e == d.img_ext),
        None => false,
    }
}

/// Every record of a catalog comes from a file with one of the two extensions
/// and the record's base name.
pub proof fn lemma_records_from_photo_files(d: PhotoDirView, names: Seq<Seq<char>>)
    requires
        scan(d, names) is Ok,
    ensures
        forall|k: Seq<char>| #[trigger]
            scan(d, names)->Ok_0.contains_key(k) ==> exists|i: int|
                0 <= i < names.len() && #[trigger] photo_file_of(d, names[i], scan(
                    d,
                    names,
                )->Ok_0[k].file_name),
    decreases names.len(),
{
    if names.len() > 0 {
        let prior = names.drop_last();
        lemma_records_from_photo_files(d, prior);
        let m0 = scan(d, prior)->Ok_0;
        let m = scan(d, names)->Ok_0;
        assert forall|k: Seq<char>| #[trigger] m.contains_key(k) implies exists|i: int|
            0 <= i < names.len() && #[trigger] photo_file_of(d, names[i], m[k].file_name) by {
            if m0.contains_key(k) {
                let i = choose|i: int|
                    0 <= i < prior.len() && #[trigger] photo_file_of(d, prior[i], m0[k].file_name);
                assert(names[i] == prior[i]);
                assert(m[k].file_name == m0[k].file_name);
                assert(photo_file_of(d, names[i], m[k].file_name));
            } else {
                let last = names.len() - 1;
                assert(names[last] == names.last());
                assert(photo_file_of(d, names[last], m[k].file_name));
            }
        }
    }
}

} // verus!
