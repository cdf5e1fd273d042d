use vstd::prelude::*;
use crate::catalog::{Catalog, catalog_of_dir};
use crate::photo::{filter_ext, is_orphan, is_orphan_spec, PhotoDir, PhotoDirView, PhotoView};

verus! {

/// The quarantine directory: `<dir>/to_delete/`.
pub open spec fn quarantine_of(d: PhotoDirView) -> Seq<char> {
    d.path + seq!['/', 't', 'o', '_', 'd', 'e', 'l', 'e', 't', 'e', '/']
}

/// Where a record's file goes in the quarantine directory.
pub open spec fn quarantine_target(d: PhotoDirView, p: PhotoView) -> Seq<char> {
    quarantine_of(d) + p.file_name + seq!['.'] + filter_ext(d)
}

/// `moves` relocates, each once, exactly the orphans of `m`: the file under
/// each orphan's identity goes to its place in the quarantine directory.
pub open spec fn moves_match(
    d: PhotoDirView,
    m: Map<Seq<char>, PhotoView>,
    moves: Seq<(Seq<char>, Seq<char>)>,
) -> bool {
    &&& forall|j: int|
        0 <= j < moves.len() ==> {
            let k = #[trigger] moves[j].0;
            &&& m.contains_key(k)
            &&& is_orphan_spec(d.filter, m[k])
            &&& moves[j].1 == quarantine_target(d, m[k])
        }
    &&& forall|k: Seq<char>|
        #![trigger m.contains_key(k)]
        m.contains_key(k) ==> (is_orphan_spec(d.filter, m[k]) <==> exists|j: int|
            0 <= j < moves.len() && #[trigger] moves[j].0 == k)
    &&& forall|a: int, b: int|
        0 <= a < b < moves.len() ==> #[trigger] moves[a].0 != #[trigger] moves[b].0
}

/// Copy the file at `source` to `target`, then remove `source`.
pub struct Relocation {
    pub source: String,
    pub target: String,
}

/// What a run does to the file system, in order: create the quarantine
/// directory if asked, carry out each move, then remove the quarantine
/// directory with its contents if asked. The first failure ends the run.
pub struct ResolutionPlan {
    pub quarantine: String,
    pub create_quarantine: bool,
    pub moves: Vec<Relocation>,
    pub remove_quarantine: bool,
}

impl ResolutionPlan {
    pub open spec fn moves_view(&self) -> Seq<(Seq<char>, Seq<char>)> {
        self.moves@.map_values(|r: Relocation| (r.source@, r.target@))
    }
}

/// The quarantine directory of a configuration.
pub fn quarantine_dir(dir: &PhotoDir) -> (r: String)
    ensures
        r@ == quarantine_of(dir@),
{
    let mut s = dir.path.clone();
    s.append("/to_delete/");
    proof {
        reveal_strlit("/to_delete/");
        assert(s@ =~= quarantine_of(dir@));
    }
    s
}

/// Decides what to do with the orphans of a catalog: each one is copied
/// into the quarantine directory and then removed. The quarantine directory
/// is created unless it exists, and removed at the end when `delete` holds.
pub fn delete_photos(dir: &PhotoDir, catalog: &Catalog, quarantine_exists: bool, delete: bool) -> (r:
    ResolutionPlan)
    requires
        catalog.wf(),
    ensures
        r.quarantine@ == quarantine_of(dir@),
        r.create_quarantine == !quarantine_exists,
        r.remove_quarantine == delete,
        moves_match(dir@, catalog@, r.moves_view()),
{
    let q = quarantine_dir(dir);
    let mut moves: Vec<Relocation> = Vec::new();
    let n = catalog.len();
    let ghost m = catalog@;
    let ghost mut idx: Seq<int> = Seq::empty();
    let mut i: usize = 0;
    proof {
        catalog.lemma_keys_listed();
    }
    while i < n
        invariant
            catalog.wf(),
            m == catalog@,
            n == m.dom().len(),
            i <= n,
            q@ == quarantine_of(dir@),
            forall|a: int, b: int|
                0 <= a < b < n ==> #[trigger] catalog.key_at(a) != #[trigger] catalog.key_at(b),
            forall|t: int| 0 <= t < n ==> m.contains_key(#[trigger] catalog.key_at(t)),
            idx.len() == moves@.len(),
            forall|j: int|
                0 <= j < idx.len() ==> {
                    &&& 0 <= #[trigger] idx[j] < i
                    &&& moves@[j].source@ == catalog.key_at(idx[j])
                    &&& is_orphan_spec(dir@.filter, m[moves@[j].source@])
                    &&& moves@[j].target@ == quarantine_target(dir@, m[moves@[j].source@])
                },
            forall|a: int, b: int| 0 <= a < b < idx.len() ==> #[trigger] idx[a] < #[trigger] idx[b],
            forall|t: int|
                0 <= t < i && is_orphan_spec(dir@.filter, m[#[trigger] catalog.key_at(t)])
                    ==> exists|j: int| 0 <= j < idx.len() && idx[j] == t,
        decreases n - i,
    {
        let (key, photo) = catalog.entry(i);
        if is_orphan(dir.filter, photo) {
            let mut target = q.clone();
            target.append(photo.file_name.as_str());
            target.append(".");
            target.append(dir.filter_extension().as_str());
            proof {
                reveal_strlit(".");
                assert(target@ =~= quarantine_target(dir@, m[key@]));
            }
            moves.push(Relocation { source: key.clone(), target });
            proof {
                let ghost old_idx = idx;
                idx = idx.push(i as int);
                assert forall|t: int|
                    0 <= t < i + 1 && is_orphan_spec(dir@.filter, m[#[trigger] catalog.key_at(t)])
                        implies exists|j: int| 0 <= j < idx.len() && idx[j] == t by {
                    if t == i {
                        assert(idx[idx.len() - 1] == t);
                    } else {
                        let j = choose|j: int| 0 <= j < old_idx.len() && old_idx[j] == t;
                        assert(idx[j] == t);
                    }
                }
            }
        }
        i = i + 1;
    }
    proof {
        let ms = moves@.map_values(|r: Relocation| (r.source@, r.target@));
        assert forall|j: int| 0 <= j < ms.len() implies #[trigger] ms[j].0 == catalog.key_at(
            idx[j],
        ) by {}
        assert forall|k: Seq<char>| #[trigger] m.contains_key(k) implies (is_orphan_spec(
            dir@.filter,
            m[k],
        ) <==> exists|j: int| 0 <= j < ms.len() && #[trigger] ms[j].0 == k) by {
            let t = choose|t: int| 0 <= t < n && #[trigger] catalog.key_at(t) == k;
            if is_orphan_spec(dir@.filter, m[k]) {
                let j = choose|j: int| 0 <= j < idx.len() && idx[j] == t;
                assert(ms[j].0 == k);
            }
        }
        assert forall|a: int, b: int| 0 <= a < b < ms.len() implies #[trigger] ms[a].0
            != #[trigger] ms[b].0 by {
            assert(idx[a] < idx[b]);
            assert(ms[a].0 == catalog.key_at(idx[a]));
            assert(ms[b].0 == catalog.key_at(idx[b]));
        }
    }
    ResolutionPlan {
        quarantine: q,
        create_quarantine: !quarantine_exists,
        moves,
        remove_quarantine: delete,
    }
}

/// Two records with one place in the quarantine directory have one base name.
proof fn lemma_target_determines_name(d: PhotoDirView, p: PhotoView, q: PhotoView)
    requires
        quarantine_target(d, p) == quarantine_target(d, q),
    ensures
        p.file_name == q.file_name,
{
    let qd = quarantine_of(d);
    let tail = seq!['.'] + filter_ext(d);
    let tp = quarantine_target(d, p);
    assert(tp =~= qd + p.file_name + tail);
    assert(quarantine_target(d, q) =~= qd + q.file_name + tail);
    assert(p.file_name.len() == q.file_name.len());
    let lo = qd.len() as int;
    let hi = lo + p.file_name.len();
    assert(tp.subrange(lo, hi) =~= p.file_name);
    assert(quarantine_target(d, q).subrange(lo, hi) =~= q.file_name);
}

/// Each file that a plan puts into the quarantine directory belongs to exactly
/// one orphan record, no two moves share a target, and every orphan's original
/// file is among the moved ones, which are then removed.
pub proof fn lemma_quarantine_complete(
    d: PhotoDirView,
    m: Map<Seq<char>, PhotoView>,
    moves: Seq<(Seq<char>, Seq<char>)>,
)
    requires
        catalog_of_dir(d, m),
        moves_match(d, m, moves),
    ensures
        forall|j: int, k: Seq<char>|
            0 <= j < moves.len() && #[trigger] m.contains_key(k) ==> ((is_orphan_spec(d.filter, m[k])
                && quarantine_target(d, m[k]) == #[trigger] moves[j].1) <==> k == moves[j].0),
        forall|a: int, b: int|
            0 <= a < b < moves.len() ==> #[trigger] moves[a].1 != #[trigger] moves[b].1,
        forall|k: Seq<char>|
            #[trigger] m.contains_key(k) && is_orphan_spec(d.filter, m[k]) ==> exists|j: int|
                0 <= j < moves.len() && #[trigger] moves[j].0 == k,
{
    assert forall|j: int, k: Seq<char>|
        0 <= j < moves.len() && #[trigger] m.contains_key(k) && quarantine_target(d, m[k])
            == #[trigger] moves[j].1 implies k == moves[j].0 by {
        let k2 = moves[j].0;
        assert(m.contains_key(k2));
        lemma_target_determines_name(d, m[k], m[k2]);
    }
    assert forall|a: int, b: int| 0 <= a < b < moves.len() implies #[trigger] moves[a].1
        != #[trigger] moves[b].1 by {
        let ka = moves[a].0;
        let kb = moves[b].0;
        assert(m.contains_key(ka) && m.contains_key(kb));
        if moves[a].1 == moves[b].1 {
            lemma_target_determines_name(d, m[ka], m[kb]);
        }
    }
}

/// A moved file keeps its base name and its extension: it leaves
/// `<dir>/<name>.<ext>` for `<dir>/to_delete/<name>.<ext>`.
pub proof fn lemma_round_trip_naming(
    d: PhotoDirView,
    m: Map<Seq<char>, PhotoView>,
    moves: Seq<(Seq<char>, Seq<char>)>,
)
    requires
        catalog_of_dir(d, m),
        moves_match(d, m, moves),
    ensures
        forall|j: int|
            0 <= j < moves.len() ==> {
                let f = m[moves[j].0].file_name;
                &&& #[trigger] moves[j].0 == d.path + seq!['/'] + f + seq!['.'] + filter_ext(d)
                &&& moves[j].1 == quarantine_of(d) + f + seq!['.'] + filter_ext(d)
            },
{
    assert forall|j: int| 0 <= j < moves.len() implies {
        let f = m[moves[j].0].file_name;
        &&& #[trigger] moves[j].0 == d.path + seq!['/'] + f + seq!['.'] + filter_ext(d)
        &&& moves[j].1 == quarantine_of(d) + f + seq!['.'] + filter_ext(d)
    } by {
        assert(m.contains_key(moves[j].0));
    }
}

} // verus!
