//! Path model: caller-supplied cache keys and canonical absolute paths.
//!
//! A canonical path is stored as its list of components (each a byte
//! string), with the empty list denoting the filesystem root.  Paths are
//! canonicalized lexically: `.` and empty components are dropped and `..`
//! removes the preceding component (or is dropped at the root).

use vstd::prelude::*;

verus! {

/// Byte value of the path separator `/`.
pub const SLASH: u8 = 47;

/// Byte value of `.`.
pub const DOT: u8 = 46;

/// A cache key: the path exactly as the caller supplied it, before
/// canonicalization.
pub struct CacheKey {
    pub bytes: Vec<u8>,
}

impl View for CacheKey {
    type V = Seq<u8>;

    open spec fn view(&self) -> Seq<u8> {
        self.bytes@
    }
}

impl CacheKey {
    /// Copy of this key, byte for byte.
    pub fn clone_key(&self) -> (r: CacheKey)
        ensures
            r@ == self@,
    {
        CacheKey { bytes: clone_bytes(&self.bytes) }
    }
}

/// An absolute, canonicalized path: its components from the root down.
/// The empty component list denotes the root itself.
pub struct AbsPath {
    pub components: Vec<Vec<u8>>,
}

impl View for AbsPath {
    type V = Seq<Seq<u8>>;

    open spec fn view(&self) -> Seq<Seq<u8>> {
        comps_view(self.components@)
    }
}

/// The component list of a path as a sequence of byte sequences.
pub open spec fn comps_view(v: Seq<Vec<u8>>) -> Seq<Seq<u8>> {
    Seq::new(v.len(), |i: int| v[i]@)
}

/// Appending a component commutes with taking the view.
pub proof fn lemma_comps_view_push(pre: Seq<Vec<u8>>, c: Vec<u8>)
    ensures
        comps_view(pre.push(c)) =~= comps_view(pre).push(c@),
{
    assert(comps_view(pre.push(c)).len() == pre.len() + 1);
    assert forall|j: int| 0 <= j <= pre.len() implies comps_view(pre.push(c))[j] == comps_view(
        pre,
    ).push(c@)[j] by {
        if j < pre.len() {
            assert(pre.push(c)[j] == pre[j]);
        } else {
            assert(pre.push(c)[j] == c);
        }
    }
}

/// Removing the last component commutes with taking the view.
pub proof fn lemma_comps_view_drop_last(v: Seq<Vec<u8>>)
    requires
        v.len() > 0,
    ensures
        comps_view(v.drop_last()) =~= comps_view(v).drop_last(),
{
    assert forall|j: int| 0 <= j < v.len() - 1 implies comps_view(v.drop_last())[j] == comps_view(
        v,
    ).drop_last()[j] by {
        assert(v.drop_last()[j] == v[j]);
    }
}

/// Concatenating component lists commutes with taking the view.
pub proof fn lemma_comps_view_add(a: Seq<Vec<u8>>, b: Seq<Vec<u8>>)
    ensures
        comps_view(a + b) =~= comps_view(a) + comps_view(b),
{
    assert forall|j: int| 0 <= j < a.len() + b.len() implies comps_view(a + b)[j] == (comps_view(a)
        + comps_view(b))[j] by {
        if j < a.len() {
            assert((a + b)[j] == a[j]);
        } else {
            assert((a + b)[j] == b[j - a.len()]);
        }
    }
}

/// A component that may stand in a canonical path: nonempty and neither
/// `.` nor `..`.
pub open spec fn component_normal(c: Seq<u8>) -> bool {
    &&& c.len() > 0
    &&& !(c.len() == 1 && c[0] == DOT)
    &&& !(c.len() == 2 && c[0] == DOT && c[1] == DOT)
}

/// All components of the path are in canonical form.
pub open spec fn path_normal(p: Seq<Seq<u8>>) -> bool {
    forall|i: int| 0 <= i < p.len() ==> component_normal(#[trigger] p[i])
}

/// `anc` is an ancestor of (or equal to) `p`: component-wise prefix.
pub open spec fn is_prefix(anc: Seq<Seq<u8>>, p: Seq<Seq<u8>>) -> bool {
    &&& anc.len() <= p.len()
    &&& forall|i: int| 0 <= i < anc.len() ==> p[i] == #[trigger] anc[i]
}

/// Byte-for-byte comparison of two byte strings.
pub fn bytes_eq(a: &Vec<u8>, b: &Vec<u8>) -> (r: bool)
    ensures
        r == (a@ == b@),
{
    if a.len() != b.len() {
        return false;
    }
    let mut i: usize = 0;
    while i < a.len()
        invariant
            i <= a.len(),
            a.len() == b.len(),
            forall|j: int| 0 <= j < i ==> a@[j] == b@[j],
        decreases a.len() - i,
    {
        if a[i] != b[i] {
            return false;
        }
        i += 1;
    }
    proof {
        assert(a@ =~= b@);
    }
    true
}

/// Copy of a byte string.
pub fn clone_bytes(a: &Vec<u8>) -> (r: Vec<u8>)
    ensures
        r@ == a@,
{
    let mut out: Vec<u8> = Vec::new();
    let mut i: usize = 0;
    while i < a.len()
        invariant
            i <= a.len(),
            out@ =~= a@.subrange(0, i as int),
        decreases a.len() - i,
    {
        out.push(a[i]);
        i += 1;
    }
    proof {
        assert(out@ =~= a@);
    }
    out
}

impl AbsPath {
    /// Whether this path equals `other`, component for component.
    pub fn eq_path(&self, other: &AbsPath) -> (r: bool)
        ensures
            r == (self@ == other@),
    {
        if self.components.len() != other.components.len() {
            proof {
                assert(self@.len() != other@.len());
            }
            return false;
        }
        let mut i: usize = 0;
        while i < self.components.len()
            invariant
                i <= self.components.len(),
                self.components.len() == other.components.len(),
                forall|j: int| 0 <= j < i ==> self@[j] == other@[j],
            decreases self.components.len() - i,
        {
            if !bytes_eq(&self.components[i], &other.components[i]) {
                proof {
                    assert(self@[i as int] != other@[i as int]);
                }
                return false;
            }
            i += 1;
        }
        proof {
            assert(self@ =~= other@);
        }
        true
    }

    /// Copy of this path.
    pub fn clone_path(&self) -> (r: AbsPath)
        ensures
            r@ == self@,
    {
        let mut comps: Vec<Vec<u8>> = Vec::new();
        let mut i: usize = 0;
        while i < self.components.len()
            invariant
                i <= self.components.len(),
                comps_view(comps@) =~= self@.subrange(0, i as int),
            decreases self.components.len() - i,
        {
            let c = clone_bytes(&self.components[i]);
            let ghost pre = comps@;
            comps.push(c);
            proof {
                lemma_comps_view_push(pre, c);
                assert(comps_view(comps@) =~= self@.subrange(0, i as int + 1));
            }
            i += 1;
        }
        proof {
            assert(comps_view(comps@) =~= self@);
        }
        AbsPath { components: comps }
    }

    /// The parent directory, or `None` for the root.
    pub fn parent(&self) -> (r: Option<AbsPath>)
        ensures
            match r {
                Option::None => self@.len() == 0,
                Option::Some(p) => self@.len() > 0 && p@ == self@.drop_last(),
            },
    {
        if self.components.len() == 0 {
            return Option::None;
        }
        let mut comps: Vec<Vec<u8>> = Vec::new();
        let mut i: usize = 0;
        while i < self.components.len() - 1
            invariant
                self.components.len() > 0,
                i <= self.components.len() - 1,
                comps_view(comps@) =~= self@.subrange(0, i as int),
            decreases self.components.len() - 1 - i,
        {
            let c = clone_bytes(&self.components[i]);
            let ghost pre = comps@;
            comps.push(c);
            proof {
                lemma_comps_view_push(pre, c);
                assert(comps_view(comps@) =~= self@.subrange(0, i as int + 1));
            }
            i += 1;
        }
        proof {
            assert(comps_view(comps@) =~= self@.drop_last());
        }
        Option::Some(AbsPath { components: comps })
    }

    /// Whether this path's components are all in canonical form.
    pub fn is_normal(&self) -> (r: bool)
        ensures
            r == path_normal(self@),
    {
        let mut i: usize = 0;
        while i < self.components.len()
            invariant
                i <= self.components.len(),
                forall|j: int| 0 <= j < i ==> component_normal(#[trigger] self@[j]),
            decreases self.components.len() - i,
        {
            if !component_is_normal(&self.components[i]) {
                proof {
                    assert(!component_normal(self@[i as int]));
                }
                return false;
            }
            i += 1;
        }
        true
    }

    /// Whether `anc` is an ancestor of (or equal to) this path.
    pub fn starts_with(&self, anc: &AbsPath) -> (r: bool)
        ensures
            r == is_prefix(anc@, self@),
    {
        if anc.components.len() > self.components.len() {
            return false;
        }
        let mut i: usize = 0;
        while i < anc.components.len()
            invariant
                i <= anc.components.len(),
                anc.components.len() <= self.components.len(),
                forall|j: int| 0 <= j < i ==> self@[j] == anc@[j],
            decreases anc.components.len() - i,
        {
            if !bytes_eq(&self.components[i], &anc.components[i]) {
                proof {
                    assert(self@[i as int] != anc@[i as int]);
                }
                return false;
            }
            i += 1;
        }
        true
    }
}

/// Whether a single component is in canonical form.
pub fn component_is_normal(c: &Vec<u8>) -> (r: bool)
    ensures
        r == component_normal(c@),
{
    if c.len() == 0 {
        false
    } else if c.len() == 1 && c[0] == DOT {
        false
    } else if c.len() == 2 && c[0] == DOT && c[1] == DOT {
        false
    } else {
        true
    }
}

/// The segments of a raw path, split on `/`; empty segments are kept, so
/// the result is never empty.
pub open spec fn split_spec(s: Seq<u8>) -> Seq<Seq<u8>>
    decreases s.len(),
{
    if s.len() == 0 {
        seq![Seq::<u8>::empty()]
    } else if s.last() == SLASH {
        split_spec(s.drop_last()).push(Seq::<u8>::empty())
    } else {
        let pre = split_spec(s.drop_last());
        pre.update(pre.len() - 1, pre.last().push(s.last()))
    }
}

/// Lexical cleaning of a segment list: empty and `.` segments are
/// dropped, `..` removes the preceding component or is dropped when no
/// component precedes it.
pub open spec fn clean_spec(segs: Seq<Seq<u8>>) -> Seq<Seq<u8>>
    decreases segs.len(),
{
    if segs.len() == 0 {
        Seq::empty()
    } else {
        let pre = clean_spec(segs.drop_last());
        let last = segs.last();
        if last.len() == 2 && last[0] == DOT && last[1] == DOT {
            if pre.len() == 0 {
                pre
            } else {
                pre.drop_last()
            }
        } else if component_normal(last) {
            pre.push(last)
        } else {
            pre
        }
    }
}

/// Lexical cleaning yields only canonical components.
pub proof fn lemma_clean_normal(segs: Seq<Seq<u8>>)
    ensures
        path_normal(clean_spec(segs)),
    decreases segs.len(),
{
    if segs.len() > 0 {
        lemma_clean_normal(segs.drop_last());
        let pre = clean_spec(segs.drop_last());
        let last = segs.last();
        if last.len() == 2 && last[0] == DOT && last[1] == DOT {
            if pre.len() > 0 {
                assert forall|i: int| 0 <= i < pre.drop_last().len() implies component_normal(
                    #[trigger] pre.drop_last()[i],
                ) by {
                    assert(pre.drop_last()[i] == pre[i]);
                }
            }
        } else if component_normal(last) {
            assert forall|i: int| 0 <= i < pre.push(last).len() implies component_normal(
                #[trigger] pre.push(last)[i],
            ) by {
                if i < pre.len() {
                    assert(pre.push(last)[i] == pre[i]);
                } else {
                    assert(pre.push(last)[i] == last);
                }
            }
        }
    }
}

/// The canonical absolute path that a raw caller path denotes, resolved
/// against the working directory `cwd`: an absolute raw path stands on
/// its own, a relative one is appended to `cwd`, and the joined segments
/// are cleaned lexically.
pub open spec fn canon_spec(cwd: Seq<Seq<u8>>, raw: Seq<u8>) -> Seq<Seq<u8>> {
    if raw.len() > 0 && raw[0] == SLASH {
        clean_spec(split_spec(raw))
    } else {
        clean_spec(cwd + split_spec(raw))
    }
}

/// Split a raw path into its `/`-separated segments.
fn split_components(raw: &Vec<u8>) -> (r: Vec<Vec<u8>>)
    ensures
        comps_view(r@) == split_spec(raw@),
{
    let mut done: Vec<Vec<u8>> = Vec::new();
    let mut cur: Vec<u8> = Vec::new();
    let mut i: usize = 0;
    while i < raw.len()
        invariant
            i <= raw.len(),
            split_spec(raw@.subrange(0, i as int)) =~= comps_view(done@).push(cur@),
        decreases raw.len() - i,
    {
        let ghost pre_prefix = raw@.subrange(0, i as int);
        let ghost pre_done = done@;
        let ghost pre_cur = cur@;
        let b = raw[i];
        if b == SLASH {
            let ghost c_old = cur;
            done.push(cur);
            cur = Vec::new();
            proof {
                lemma_comps_view_push(pre_done, c_old);
            }
        } else {
            cur.push(b);
        }
        proof {
            let p1 = raw@.subrange(0, i as int + 1);
            assert(p1.drop_last() =~= pre_prefix);
            assert(p1.last() == raw@[i as int]);
            if raw@[i as int] != SLASH {
                let pre = split_spec(pre_prefix);
                assert(pre == comps_view(pre_done).push(pre_cur));
                assert(pre.last() == pre_cur);
                assert(split_spec(p1) =~= comps_view(pre_done).push(pre_cur.push(
                    raw@[i as int],
                )));
            }
            assert(split_spec(p1) =~= comps_view(done@).push(cur@));
        }
        i += 1;
    }
    let ghost pre_done = done@;
    let ghost c_old = cur;
    done.push(cur);
    proof {
        assert(raw@.subrange(0, raw.len() as int) =~= raw@);
        lemma_comps_view_push(pre_done, c_old);
        assert(comps_view(done@) =~= split_spec(raw@));
    }
    done
}

/// Clean a segment list lexically, as `clean_spec` describes.
fn clean_segments(segs: &Vec<Vec<u8>>) -> (r: Vec<Vec<u8>>)
    ensures
        comps_view(r@) == clean_spec(comps_view(segs@)),
{
    let mut out: Vec<Vec<u8>> = Vec::new();
    let mut i: usize = 0;
    while i < segs.len()
        invariant
            i <= segs.len(),
            comps_view(out@) =~= clean_spec(comps_view(segs@).subrange(0, i as int)),
        decreases segs.len() - i,
    {
        let ghost pre_out = out@;
        let seg = &segs[i];
        let is_dotdot = seg.len() == 2 && seg[0] == DOT && seg[1] == DOT;
        if is_dotdot {
            if out.len() > 0 {
                out.pop();
                proof {
                    lemma_comps_view_drop_last(pre_out);
                }
            }
        } else if component_is_normal(seg) {
            let c = clone_bytes(seg);
            out.push(c);
            proof {
                lemma_comps_view_push(pre_out, c);
            }
        }
        proof {
            let s = comps_view(segs@);
            let p1 = s.subrange(0, i as int + 1);
            assert(p1.drop_last() =~= s.subrange(0, i as int));
            assert(p1.last() == seg@);
            assert(comps_view(out@) =~= clean_spec(p1));
        }
        i += 1;
    }
    proof {
        assert(comps_view(segs@).subrange(0, segs.len() as int) =~= comps_view(segs@));
    }
    out
}

/// The canonical absolute path for a caller-supplied raw path, resolved
/// against the canonical working directory `cwd`.
pub fn absolute_path(cwd: &AbsPath, raw: &CacheKey) -> (r: AbsPath)
    ensures
        r@ == canon_spec(cwd@, raw@),
        path_normal(r@),
{
    let mut segs = split_components(&raw.bytes);
    let is_abs = raw.bytes.len() > 0 && raw.bytes[0] == SLASH;
    let comps = if is_abs {
        clean_segments(&segs)
    } else {
        let mut all = cwd.clone_path().components;
        let ghost pre_all = all@;
        let ghost pre_segs = segs@;
        all.append(&mut segs);
        proof {
            lemma_comps_view_add(pre_all, pre_segs);
            assert(comps_view(all@) =~= cwd@ + split_spec(raw@));
        }
        clean_segments(&all)
    };
    proof {
        if is_abs {
            lemma_clean_normal(split_spec(raw@));
        } else {
            lemma_clean_normal(cwd@ + split_spec(raw@));
        }
    }
    AbsPath { components: comps }
}

} // verus!
