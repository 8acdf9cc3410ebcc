//! The image registry: an ordered list of loaded images, a process-lifetime
//! id allocator, and a single "focused" selection.

use vstd::prelude::*;

verus! {

use crate::extract::MetadataEntry;
use crate::extract::ExtractError;
use crate::extract::extract;
use crate::extract::parse_ok;
use crate::extract::has_png_signature;
use crate::extract::text_entries;
use crate::extract::entries_match;

/// One loaded image: a stable id, the path the caller supplied, and the
/// text metadata extracted when it was added (immutable afterwards).
#[derive(Debug)]
pub struct Image {
    pub id: u32,
    pub filename: String,
    pub metadata: Vec<MetadataEntry>,
}

/// The registry state: the images in insertion order, the next id to hand
/// out, and the id of the focused image (0 means "no focus").
#[derive(Debug)]
pub struct State {
    pub images: Vec<Image>,
    pub next_id: u32,
    pub focus_on: u32,
}

/// All ids of `s` lie in `1..bound`.
pub open spec fn ids_below(s: Seq<Image>, bound: u32) -> bool {
    forall|i: int| 0 <= i < s.len() ==> 1 <= (#[trigger] s[i]).id < bound
}

/// The ids of `s` are pairwise distinct.
pub open spec fn distinct_ids(s: Seq<Image>) -> bool {
    forall|i: int, j: int|
        #![trigger s[i].id, s[j].id]
        0 <= i < j < s.len() ==> s[i].id != s[j].id
}

/// `s` with every image whose id equals `id` removed (at most one, when ids
/// are distinct), the relative order of the survivors preserved.
pub open spec fn remove_id(s: Seq<Image>, id: u32) -> Seq<Image>
    decreases s.len(),
{
    if s.len() == 0 {
        s
    } else if s[0].id == id {
        remove_id(s.drop_first(), id)
    } else {
        seq![s[0]] + remove_id(s.drop_first(), id)
    }
}

impl State {
    /// Well-formedness: ids are positive, below the allocator's cursor and
    /// pairwise distinct, and the focus is either clear (0) or on a present
    /// image.
    pub open spec fn wf(self) -> bool {
        &&& 1 <= self.next_id
        &&& ids_below(self.images@, self.next_id)
        &&& distinct_ids(self.images@)
        &&& self.focus_on == 0 || exists|i: int|
            0 <= i < self.images@.len() && (#[trigger] self.images@[i]).id == self.focus_on
    }

    /// A fresh registry: no images, no focus, ids start at 1.
    pub fn new() -> (s: State)
        ensures
            s.wf(),
            s.images@ =~= Seq::<Image>::empty(),
            s.next_id == 1,
            s.focus_on == 0,
    {
        State { images: Vec::new(), next_id: 1, focus_on: 0 }
    }

    /// Adds the image at `filename`, whose raw bytes are `data`.
    ///
    /// Extraction failures propagate unchanged and leave the state exactly
    /// as it was. On success the image is appended with a fresh id strictly
    /// greater than the id of every image already present, and becomes the
    /// focused image.
    pub fn add_image(&mut self, filename: String, data: &Vec<u8>) -> (r: Result<u32, ExtractError>)
        requires
            old(self).wf(),
            old(self).next_id < u32::MAX,
        ensures
            final(self).wf(),
            match r {
                Ok(id) => {
                    &&& parse_ok(data@)
                    &&& id == old(self).next_id
                    &&& final(self).next_id == old(self).next_id + 1
                    &&& final(self).focus_on == id
                    &&& final(self).images@.len() == old(self).images@.len() + 1
                    &&& final(self).images@.drop_last() == old(self).images@
                    &&& final(self).images@.last().id == id
                    &&& final(self).images@.last().filename == filename
                    &&& entries_match(final(self).images@.last().metadata@, text_entries(data@))
                    &&& forall|i: int|
                        0 <= i < old(self).images@.len() ==> (#[trigger] old(self).images@[i]).id
                            < id
                },
                Err(e) => {
                    &&& *final(self) == *old(self)
                    &&& match e {
                        ExtractError::Format { filename: f } => !has_png_signature(data@) && f@
                            == filename@,
                        ExtractError::Decode { filename: f } => has_png_signature(data@)
                            && !parse_ok(data@) && f@ == filename@,
                        ExtractError::Io { .. } => false,
                    }
                },
            },
    {
        let metadata = match extract(filename.as_str(), data) {
            Ok(m) => m,
            Err(e) => {
                return Err(e);
            },
        };
        let id = self.next_id;
        self.next_id = self.next_id + 1;
        self.images.push(Image { id, filename, metadata });
        self.focus_on = id;
        proof {
            assert(self.images@.drop_last() =~= old(self).images@);
            assert(self.images@[self.images@.len() - 1].id == self.focus_on);
        }
        Ok(id)
    }

    /// Removes every image whose id equals `id` (at most one, by the
    /// uniqueness invariant), preserving the order of the survivors, and
    /// unconditionally clears the focus, whether or not a match was found.
    pub fn remove_image(&mut self, id: u32)
        requires
            old(self).wf(),
        ensures
            final(self).wf(),
            final(self).images@ == remove_id(old(self).images@, id),
            final(self).focus_on == 0,
            final(self).next_id == old(self).next_id,
            forall|k: int|
                0 <= k < final(self).images@.len() ==> (#[trigger] final(self).images@[k]).id
                    != id,
    {
        let mut taken: Vec<Image> = Vec::new();
        core::mem::swap(&mut self.images, &mut taken);
        let ghost orig = taken@;
        let mut kept: Vec<Image> = Vec::new();
        while taken.len() > 0
            invariant
                remove_id(orig, id) == kept@ + remove_id(taken@, id),
            decreases taken@.len(),
        {
            let ghost prev = taken@;
            let img = taken.remove(0);
            proof {
                assert(img == prev[0]);
                assert(taken@ =~= prev.drop_first());
            }
            if img.id != id {
                kept.push(img);
                proof {
                    assert(kept@ + remove_id(taken@, id) =~= kept@.drop_last() + (seq![prev[0]]
                        + remove_id(prev.drop_first(), id)));
                }
            }
        }
        proof {
            assert(kept@ + remove_id(taken@, id) =~= kept@);
            lemma_remove_id_props(orig, id);
        }
        self.images = kept;
        self.focus_on = 0;
    }

    /// The full-state snapshot that is broadcast after every mutation: a
    /// copy of the image list and the current focus.
    pub fn snapshot(&self) -> (p: StateChangedPayload)
        ensures
            p.focus_on == self.focus_on,
            images_match(p.images@, self.images@),
    {
        let mut copies: Vec<Image> = Vec::new();
        let mut i: usize = 0;
        while i < self.images.len()
            invariant
                i <= self.images@.len(),
                copies@.len() == i,
                forall|k: int|
                    0 <= k < i ==> image_matches(#[trigger] copies@[k], self.images@[k]),
            decreases self.images@.len() - i,
        {
            let copy = self.images[i].clone();
            copies.push(copy);
            i = i + 1;
        }
        StateChangedPayload { images: copies, focus_on: self.focus_on }
    }
}

/// The immutable payload delivered to observers after every mutation.
#[derive(Debug)]
pub struct StateChangedPayload {
    pub images: Vec<Image>,
    pub focus_on: u32,
}

/// `a` carries the same id, filename and metadata as `b`.
pub open spec fn image_matches(a: Image, b: Image) -> bool {
    &&& a.id == b.id
    &&& a.filename@ == b.filename@
    &&& a.metadata@ == b.metadata@
}

/// `a` is a faithful copy of the image list `b`.
pub open spec fn images_match(a: Seq<Image>, b: Seq<Image>) -> bool {
    &&& a.len() == b.len()
    &&& forall|i: int| 0 <= i < a.len() ==> image_matches(#[trigger] a[i], b[i])
}

impl Clone for MetadataEntry {
    fn clone(&self) -> (r: Self)
        ensures
            r == *self,
    {
        MetadataEntry { keyword: self.keyword.clone(), value: self.value.clone() }
    }
}

impl Clone for Image {
    fn clone(&self) -> (r: Self)
        ensures
            image_matches(r, *self),
    {
        let metadata = self.metadata.clone();
        proof {
            assert(metadata@ =~= self.metadata@);
        }
        Image { id: self.id, filename: self.filename.clone(), metadata }
    }
}

/// The survivors of a removal are images of the original list, none of them
/// carries the removed id, the list grows no longer, and distinct ids stay
/// distinct.
pub proof fn lemma_remove_id_props(s: Seq<Image>, id: u32)
    ensures
        remove_id(s, id).len() <= s.len(),
        forall|k: int| 0 <= k < remove_id(s, id).len() ==> (#[trigger] remove_id(s, id)[k]).id
            != id,
        forall|k: int|
            0 <= k < remove_id(s, id).len() ==> exists|i: int|
                0 <= i < s.len() && #[trigger] remove_id(s, id)[k] == s[i],
        distinct_ids(s) ==> distinct_ids(remove_id(s, id)),
        forall|bound: u32| ids_below(s, bound) ==> #[trigger] ids_below(remove_id(s, id), bound),
    decreases s.len(),
{
    if s.len() == 0 {
    } else {
        let rest = s.drop_first();
        lemma_remove_id_props(rest, id);
        assert forall|k: int|
            0 <= k < remove_id(rest, id).len() implies exists|i: int|
            0 <= i < s.len() && #[trigger] remove_id(rest, id)[k] == s[i] by {
            let i = choose|i: int| 0 <= i < rest.len() && remove_id(rest, id)[k] == rest[i];
            assert(remove_id(rest, id)[k] == s[i + 1]);
        }
        if s[0].id == id {
        } else {
            let r = seq![s[0]] + remove_id(rest, id);
            assert(r[0] == s[0]);
            assert forall|k: int| 0 <= k < r.len() implies exists|i: int|
                0 <= i < s.len() && #[trigger] r[k] == s[i] by {
                if k == 0 {
                    assert(r[0] == s[0]);
                } else {
                    assert(r[k] == remove_id(rest, id)[k - 1]);
                    let i = choose|i: int|
                        0 <= i < s.len() && remove_id(rest, id)[k - 1] == s[i];
                    assert(r[k] == s[i]);
                }
            }
            if distinct_ids(s) {
                assert(distinct_ids(rest)) by {
                    assert forall|i: int, j: int|
                        #![trigger rest[i].id, rest[j].id]
                        0 <= i < j < rest.len() implies rest[i].id != rest[j].id by {
                        assert(rest[i] == s[i + 1] && rest[j] == s[j + 1]);
                    }
                }
                assert forall|i: int, j: int|
                    #![trigger r[i].id, r[j].id]
                    0 <= i < j < r.len() implies r[i].id != r[j].id by {
                    if i == 0 {
                        assert(r[j] == remove_id(rest, id)[j - 1]);
                        let m = choose|m: int|
                            0 <= m < rest.len() && remove_id(rest, id)[j - 1] == rest[m];
                        assert(rest[m] == s[m + 1]);
                        assert(s[0].id != s[m + 1].id);
                    } else {
                        assert(r[i] == remove_id(rest, id)[i - 1]);
                        assert(r[j] == remove_id(rest, id)[j - 1]);
                    }
                }
            }
            assert forall|bound: u32| ids_below(s, bound) implies #[trigger] ids_below(
                remove_id(s, id),
                bound,
            ) by {
                assert(ids_below(rest, bound)) by {
                    assert forall|i: int| 0 <= i < rest.len() implies 1 <= (
                    #[trigger] rest[i]).id < bound by {
                        assert(rest[i] == s[i + 1]);
                    }
                }
                assert forall|k: int| 0 <= k < r.len() implies 1 <= (#[trigger] r[k]).id
                    < bound by {
                    if k == 0 {
                    } else {
                        assert(r[k] == remove_id(rest, id)[k - 1]);
                    }
                }
            }
        }
    }
}

/// When no image of `s` carries `id`, removal changes nothing.
pub proof fn lemma_remove_id_no_match(s: Seq<Image>, id: u32)
    requires
        forall|i: int| 0 <= i < s.len() ==> (#[trigger] s[i]).id != id,
    ensures
        remove_id(s, id) == s,
    decreases s.len(),
{
    if s.len() == 0 {
        assert(remove_id(s, id) =~= s);
    } else {
        let rest = s.drop_first();
        assert forall|i: int| 0 <= i < rest.len() implies (#[trigger] rest[i]).id != id by {
            assert(rest[i] == s[i + 1]);
        }
        lemma_remove_id_no_match(rest, id);
        assert(seq![s[0]] + rest =~= s);
    }
}

/// Law: when ids are pairwise distinct, a removal drops at most one image.
pub proof fn lemma_remove_at_most_one(s: Seq<Image>, id: u32)
    requires
        distinct_ids(s),
    ensures
        s.len() - 1 <= remove_id(s, id).len() <= s.len(),
    decreases s.len(),
{
    lemma_remove_id_props(s, id);
    if s.len() == 0 {
    } else {
        let rest = s.drop_first();
        assert(distinct_ids(rest)) by {
            assert forall|i: int, j: int|
                #![trigger rest[i].id, rest[j].id]
                0 <= i < j < rest.len() implies rest[i].id != rest[j].id by {
                assert(rest[i] == s[i + 1] && rest[j] == s[j + 1]);
            }
        }
        if s[0].id == id {
            assert forall|i: int| 0 <= i < rest.len() implies (#[trigger] rest[i]).id != id by {
                assert(rest[i] == s[i + 1]);
                assert(s[0].id != s[i + 1].id);
            }
            lemma_remove_id_no_match(rest, id);
        } else {
            lemma_remove_at_most_one(rest, id);
        }
    }
}

/// Law: ids strictly increase across any sequence of adds. `add_image`
/// returns the allocator cursor and strictly advances it, and no operation
/// ever moves the cursor back (`remove_image` keeps it unchanged), so an id
/// handed out by a later successful add strictly exceeds one handed out
/// earlier: here `pre1`/`post1` surround the earlier add returning `id1`,
/// `pre2` is any later state, and `id2` is what an add from `pre2` returns.
pub proof fn lemma_ids_strictly_increase(
    pre1: State,
    post1: State,
    id1: u32,
    pre2: State,
    id2: u32,
)
    requires
        id1 == pre1.next_id,
        post1.next_id == pre1.next_id + 1,
        post1.next_id <= pre2.next_id,
        id2 == pre2.next_id,
    ensures
        id2 > id1,
{
}

/// Law: removal is idempotent on the list; removing the same id a second
/// time is a no-op.
pub proof fn lemma_remove_idempotent(s: Seq<Image>, id: u32)
    ensures
        remove_id(remove_id(s, id), id) == remove_id(s, id),
{
    lemma_remove_id_props(s, id);
    lemma_remove_id_no_match(remove_id(s, id), id);
}

} // verus!
