//! The cache envelope: the closed tagged key and value variants shared by
//! every domain that persists through the cache, the error taxonomy of the
//! cache layer, the null cache, and the `clean` traversal over a modelled
//! directory tree.

pub mod file;

use vstd::prelude::*;

verus! {

/// A decoded cache value carried a different variant than the reader asked
/// for.
#[derive(Clone, Copy, PartialEq, Eq, Structural, Debug)]
pub struct ConvertError;

/// The closed envelope of cache keys: one variant per compute domain that
/// persists through the cache.
#[derive(Clone, Copy, Debug)]
pub enum CacheKey {
    MapDomain(crate::map::CacheKey),
}

/// The closed envelope of cache values.
#[derive(Clone, Debug)]
pub enum CacheValue {
    MapDomain(crate::map::CacheValue),
}

/// Mathematical image of an envelope value.
pub enum CacheValueV {
    MapDomain(crate::map::CacheValueV),
}

impl View for CacheValue {
    type V = CacheValueV;

    open spec fn view(&self) -> CacheValueV {
        match self {
            CacheValue::MapDomain(v) => CacheValueV::MapDomain(v@),
        }
    }
}

impl CacheValue {
    /// Unwraps the map-domain variant, or reports which variant was wanted.
    pub fn into_map(self) -> (r: Result<crate::map::CacheValue, ConvertError>)
        ensures
            r matches Ok(v) && self@ == CacheValueV::MapDomain(v@),
    {
        match self {
            CacheValue::MapDomain(v) => Ok(v),
        }
    }

    /// Wraps a map-domain value into the envelope.
    pub fn from_map(v: crate::map::CacheValue) -> (r: Self)
        ensures
            r@ == CacheValueV::MapDomain(v@),
    {
        CacheValue::MapDomain(v)
    }
}

impl CacheKey {
    /// Wraps a map-domain key into the envelope.
    pub fn from_map(k: crate::map::CacheKey) -> (r: Self)
        ensures
            r == CacheKey::MapDomain(k),
    {
        CacheKey::MapDomain(k)
    }
}

/// A node of the modelled directory tree that `clean` traverses: a regular
/// file carrying its leading bytes, or a directory of named children. The
/// binary walks the real filesystem; the decision which files and
/// directories go lives here.
pub enum FsNode {
    File(Vec<u8>),
    Dir(Vec<FsEntry>),
}

/// A named child of a directory.
pub struct FsEntry {
    pub name: Vec<u8>,
    pub node: FsNode,
}

/// Mathematical image of a tree node.
pub enum FsNodeV {
    File(Seq<u8>),
    Dir(Seq<FsEntryV>),
}

/// Mathematical image of a named child.
pub struct FsEntryV {
    pub name: Seq<u8>,
    pub node: FsNodeV,
}

/// The image of a tree node.
pub open spec fn node_view(n: FsNode) -> FsNodeV
    decreases n,
{
    match n {
        FsNode::File(content) => FsNodeV::File(content@),
        FsNode::Dir(entries) => FsNodeV::Dir(entries_view(entries@)),
    }
}

/// The images of a run of children, in order.
pub open spec fn entries_view(s: Seq<FsEntry>) -> Seq<FsEntryV>
    decreases s,
{
    if s.len() == 0 {
        Seq::empty()
    } else {
        seq![FsEntryV { name: s[0].name@, node: node_view(s[0].node) }] + entries_view(
            s.drop_first(),
        )
    }
}

/// Whether a file's leading bytes identify it as a cache file: `clean`
/// goes by the five-byte global magic prefix alone.
pub open spec fn is_cache_file(content: Seq<u8>) -> bool {
    content.len() >= 5 && content.take(5) == crate::cache::file::global_magic()
}

/// What `clean` leaves of a node: a cache file is deleted, any other file
/// is kept untouched, and a directory keeps its surviving children — or is
/// removed when none survive.
pub open spec fn clean_spec(n: FsNodeV) -> Option<FsNodeV>
    decreases n,
{
    match n {
        FsNodeV::File(c) => if is_cache_file(c) {
            None
        } else {
            Some(n)
        },
        FsNodeV::Dir(es) => {
            let kept = clean_entries_spec(es);
            if kept.len() == 0 {
                None
            } else {
                Some(FsNodeV::Dir(kept))
            }
        },
    }
}

/// What `clean` leaves of a run of children, names and order preserved.
pub open spec fn clean_entries_spec(es: Seq<FsEntryV>) -> Seq<FsEntryV>
    decreases es,
{
    if es.len() == 0 {
        Seq::empty()
    } else {
        let rest = clean_entries_spec(es.drop_first());
        match clean_spec(es[0].node) {
            Some(n2) => seq![FsEntryV { name: es[0].name, node: n2 }] + rest,
            None => rest,
        }
    }
}

/// Appending one child extends the cleaned run on the right.
pub proof fn lemma_clean_entries_snoc(es: Seq<FsEntryV>, e: FsEntryV)
    ensures
        clean_entries_spec(es.push(e)) == clean_entries_spec(es) + (match clean_spec(e.node) {
            Some(n2) => seq![FsEntryV { name: e.name, node: n2 }],
            None => Seq::<FsEntryV>::empty(),
        }),
    decreases es.len(),
{
    let tail = (match clean_spec(e.node) {
        Some(n2) => seq![FsEntryV { name: e.name, node: n2 }],
        None => Seq::<FsEntryV>::empty(),
    });
    if es.len() == 0 {
        assert(es.push(e).drop_first() =~= Seq::<FsEntryV>::empty());
        assert(es.push(e)[0] == e);
        assert(clean_entries_spec(Seq::<FsEntryV>::empty()) == Seq::<FsEntryV>::empty());
        assert(es =~= Seq::<FsEntryV>::empty());
        match clean_spec(e.node) {
            Some(n2) => {
                assert(clean_entries_spec(es.push(e)) =~= clean_entries_spec(es) + tail);
            },
            None => {
                assert(clean_entries_spec(es.push(e)) =~= clean_entries_spec(es) + tail);
            },
        }
    } else {
        assert(es.push(e).drop_first() =~= es.drop_first().push(e));
        assert(es.push(e)[0] == es[0]);
        lemma_clean_entries_snoc(es.drop_first(), e);
        match clean_spec(es[0].node) {
            Some(n2) => {
                assert(clean_entries_spec(es.push(e)) == seq![FsEntryV {
                    name: es[0].name,
                    node: n2,
                }] + (clean_entries_spec(es.drop_first()) + tail));
                assert(seq![FsEntryV { name: es[0].name, node: n2 }] + (clean_entries_spec(
                    es.drop_first(),
                ) + tail) =~= (seq![FsEntryV { name: es[0].name, node: n2 }] + clean_entries_spec(
                    es.drop_first(),
                )) + tail);
            },
            None => {
            },
        }
    }
}

/// Clean safety, kept side: every surviving child comes from an original
/// child of the same name whose own cleaning kept it; nothing is invented.
pub proof fn lemma_clean_entries_sound(es: Seq<FsEntryV>, j: int)
    requires
        0 <= j < clean_entries_spec(es).len(),
    ensures
        exists|i: int|
            0 <= i < es.len() && (#[trigger] es[i]).name == clean_entries_spec(es)[j].name
                && clean_spec(es[i].node) == Some(clean_entries_spec(es)[j].node),
    decreases es.len(),
{
    let kept = clean_entries_spec(es);
    if es.len() > 0 {
        let rest = clean_entries_spec(es.drop_first());
        match clean_spec(es[0].node) {
            Some(n2) => {
                if j == 0 {
                    assert(kept[0] == FsEntryV { name: es[0].name, node: n2 });
                    assert(es[0].name == kept[0].name && clean_spec(es[0].node) == Some(
                        kept[0].node,
                    ));
                } else {
                    lemma_clean_entries_sound(es.drop_first(), j - 1);
                    let i0 = choose|i0: int|
                        0 <= i0 < es.drop_first().len() && (#[trigger] es.drop_first()[i0]).name
                            == rest[j - 1].name && clean_spec(es.drop_first()[i0].node) == Some(
                            rest[j - 1].node,
                        );
                    assert(es[i0 + 1] == es.drop_first()[i0]);
                    assert(kept[j] == rest[j - 1]);
                }
            },
            None => {
                lemma_clean_entries_sound(es.drop_first(), j);
                let i0 = choose|i0: int|
                    0 <= i0 < es.drop_first().len() && (#[trigger] es.drop_first()[i0]).name
                        == rest[j].name && clean_spec(es.drop_first()[i0].node) == Some(
                        rest[j].node,
                    );
                assert(es[i0 + 1] == es.drop_first()[i0]);
            },
        }
    }
}

/// Clean safety, keeping side: every original child that survives its own
/// cleaning is still present, under its own name. In particular a file
/// whose bytes do not begin with the cache magic is never removed.
pub proof fn lemma_clean_entries_complete(es: Seq<FsEntryV>, i: int)
    requires
        0 <= i < es.len(),
        clean_spec(es[i].node) is Some,
    ensures
        exists|j: int|
            0 <= j < clean_entries_spec(es).len() && (#[trigger] clean_entries_spec(es)[j]).name
                == es[i].name && Some(clean_entries_spec(es)[j].node) == clean_spec(es[i].node),
    decreases es.len(),
{
    let kept = clean_entries_spec(es);
    let rest = clean_entries_spec(es.drop_first());
    if i == 0 {
        match clean_spec(es[0].node) {
            Some(n2) => {
                assert(kept[0] == FsEntryV { name: es[0].name, node: n2 });
            },
            None => {},
        }
    } else {
        assert(es.drop_first()[i - 1] == es[i]);
        lemma_clean_entries_complete(es.drop_first(), i - 1);
        let j0 = choose|j0: int|
            0 <= j0 < rest.len() && (#[trigger] rest[j0]).name == es.drop_first()[i - 1].name
                && Some(rest[j0].node) == clean_spec(es.drop_first()[i - 1].node);
        match clean_spec(es[0].node) {
            Some(n2) => {
                assert(kept[j0 + 1] == rest[j0]);
            },
            None => {
                assert(kept[j0] == rest[j0]);
            },
        }
    }
}

/// Copies a byte vector.
fn copy_bytes(s: &Vec<u8>) -> (r: Vec<u8>)
    ensures
        r@ == s@,
{
    let mut out: Vec<u8> = Vec::new();
    let mut i: usize = 0;
    while i < s.len()
        invariant
            i <= s@.len(),
            out@ == s@.take(i as int),
        decreases s@.len() - i,
    {
        out.push(s[i]);
        i = i + 1;
        proof {
            assert(s@.take(i as int) =~= s@.take(i - 1).push(s@[i - 1]));
        }
    }
    proof {
        assert(s@.take(s@.len() as int) == s@);
    }
    out
}

/// Cleans one node of the tree, per `clean_spec`: deletes exactly the
/// regular files whose first five bytes are the cache magic, keeps every
/// other file, and removes directories that end up empty.
pub fn clean_node(n: &FsNode) -> (r: Option<FsNode>)
    ensures
        match r {
            Some(n2) => clean_spec(node_view(*n)) == Some(node_view(n2)),
            None => clean_spec(node_view(*n)) is None,
        },
    decreases *n,
{
    match n {
        FsNode::File(content) => {
            let magic_len: usize = 5;
            let is_cache = content.len() >= magic_len && content[0] == 0 && content[1] == 100
                && content[2] == 105 && content[3] == 115 && content[4] == 115;
            proof {
                if content@.len() >= 5 {
                    assert(content@.take(5)[0] == content@[0]);
                    assert(content@.take(5)[1] == content@[1]);
                    assert(content@.take(5)[2] == content@[2]);
                    assert(content@.take(5)[3] == content@[3]);
                    assert(content@.take(5)[4] == content@[4]);
                    assert(crate::cache::file::global_magic()[0] == 0u8);
                    assert(crate::cache::file::global_magic()[1] == 100u8);
                    assert(crate::cache::file::global_magic()[2] == 105u8);
                    assert(crate::cache::file::global_magic()[3] == 115u8);
                    assert(crate::cache::file::global_magic()[4] == 115u8);
                    if content@[0] == 0 && content@[1] == 100 && content@[2] == 105 && content@[3]
                        == 115 && content@[4] == 115 {
                        assert(content@.take(5) =~= crate::cache::file::global_magic());
                    }
                }
            }
            if is_cache {
                None
            } else {
                Some(FsNode::File(copy_bytes(content)))
            }
        },
        FsNode::Dir(entries) => {
            let ghost esv = entries_view(entries@);
            let mut kept: Vec<FsEntry> = Vec::new();
            let mut i: usize = 0;
            while i < entries.len()
                invariant
                    i <= entries@.len(),
                    (*n matches FsNode::Dir(es) && es@ == entries@),
                    esv == entries_view(entries@),
                    entries_view(kept@) == clean_entries_spec(esv.take(i as int)),
                decreases entries@.len() - i,
            {
                proof {
                    lemma_entries_view_index(entries@, i as int);
                    assert(esv.take(i + 1) =~= esv.take(i as int).push(esv[i as int]));
                    lemma_clean_entries_snoc(esv.take(i as int), esv[i as int]);
                    match n {
                        FsNode::Dir(es) => {
                            assert(decreases_to!(*n => *es));
                            assert(decreases_to!(*es => es@));
                            assert(decreases_to!(es@ => es@[i as int]));
                            assert(decreases_to!(es@[i as int] => es@[i as int].node));
                            assert(es@[i as int].node == entries@[i as int].node);
                        },
                        _ => {
                            assert(false);
                        },
                    }
                }
                match clean_node(&entries[i].node) {
                    Some(n2) => {
                        let ghost kept_pre = kept@;
                        kept.push(FsEntry { name: copy_bytes(&entries[i].name), node: n2 });
                        proof {
                            assert(entries_view(kept@) =~= entries_view(kept_pre).push(
                                FsEntryV {
                                    name: entries@[i as int].name@,
                                    node: node_view(kept@.last().node),
                                },
                            )) by {
                                lemma_entries_view_snoc(kept_pre, kept@.last());
                            }
                        }
                    },
                    None => {
                    },
                }
                i = i + 1;
            }
            proof {
                lemma_entries_view_len(entries@);
                assert(esv.take(esv.len() as int) == esv);
                lemma_entries_view_len(kept@);
                match n {
                    FsNode::Dir(es) => {
                        assert(es@ == entries@);
                        assert(entries_view(es@) == entries_view(entries@));
                        assert(node_view(*n) == FsNodeV::Dir(entries_view(entries@)));
                        assert(node_view(*n) == FsNodeV::Dir(esv));
                        assert(entries_view(kept@) == clean_entries_spec(esv));
                    },
                    _ => {
                        assert(false);
                    },
                }
            }
            if kept.len() > 0 {
                Some(FsNode::Dir(kept))
            } else {
                proof {
                    assert(entries_view(kept@).len() == 0);
                }
                None
            }
        },
    }
}

/// The image of child `i` of a run.
proof fn lemma_entries_view_index(s: Seq<FsEntry>, i: int)
    requires
        0 <= i < s.len(),
    ensures
        entries_view(s).len() == s.len(),
        entries_view(s)[i] == (FsEntryV { name: s[i].name@, node: node_view(s[i].node) }),
    decreases s.len(),
{
    lemma_entries_view_len(s);
    if i > 0 {
        lemma_entries_view_index(s.drop_first(), i - 1);
        assert(s.drop_first()[i - 1] == s[i]);
    }
}

/// A run's image has one image per child.
proof fn lemma_entries_view_len(s: Seq<FsEntry>)
    ensures
        entries_view(s).len() == s.len(),
    decreases s.len(),
{
    if s.len() > 0 {
        lemma_entries_view_len(s.drop_first());
    }
}

/// Appending one child extends the image on the right.
proof fn lemma_entries_view_snoc(s: Seq<FsEntry>, e: FsEntry)
    ensures
        entries_view(s.push(e)) == entries_view(s).push(
            FsEntryV { name: e.name@, node: node_view(e.node) },
        ),
    decreases s.len(),
{
    if s.len() == 0 {
        assert(s.push(e).drop_first() =~= Seq::<FsEntry>::empty());
        assert(s.push(e)[0] == e);
        assert(entries_view(Seq::<FsEntry>::empty()) == Seq::<FsEntryV>::empty());
        assert(entries_view(s.push(e)) =~= entries_view(s).push(
            FsEntryV { name: e.name@, node: node_view(e.node) },
        ));
    } else {
        assert(s.push(e).drop_first() =~= s.drop_first().push(e));
        assert(s.push(e)[0] == s[0]);
        lemma_entries_view_snoc(s.drop_first(), e);
        assert(entries_view(s.push(e)) =~= entries_view(s).push(
            FsEntryV { name: e.name@, node: node_view(e.node) },
        ));
    }
}

/// The cache that drops everything: reads yield nothing and writes go
/// nowhere, so the `-` cache mode needs no branching at call sites.
pub struct NullCache;

impl NullCache {
    /// Reads nothing.
    pub fn read(&self) -> (r: Vec<CacheValue>)
        ensures
            r@.len() == 0,
    {
        Vec::new()
    }

    /// Drops the value.
    pub fn write(&self, _val: &CacheValue) {
    }

    /// Nothing to clean.
    pub fn clean(&self) {
    }
}

/// A cache selected at run time: file-backed or disabled.
pub enum DynamicCache {
    File(crate::cache::file::FileCache),
    Null(NullCache),
}

/// Builds the cache that a cache-mode selection calls for.
pub fn from_opts(mode: crate::cli::CacheMode) -> (r: DynamicCache)
    ensures
        mode is Off ==> r is Null,
        mode is File ==> r is File,
{
    match mode {
        crate::cli::CacheMode::Off => DynamicCache::Null(NullCache),
        crate::cli::CacheMode::File(d) => DynamicCache::File(crate::cache::file::FileCache(d)),
    }
}

/// Empties the cache rooted at the given tree: with the cache disabled the
/// tree is left untouched; otherwise exactly the cache files are deleted
/// and emptied directories removed, per `clean_spec`.
pub fn clean(mode: crate::cli::CacheMode, root: FsNode) -> (r: Option<FsNode>)
    ensures
        mode is Off ==> r == Some(root),
        mode is File ==> match r {
            Some(n2) => clean_spec(node_view(root)) == Some(node_view(n2)),
            None => clean_spec(node_view(root)) is None,
        },
{
    match mode {
        crate::cli::CacheMode::Off => Some(root),
        crate::cli::CacheMode::File(_) => clean_node(&root),
    }
}

/// A failure in the cache layer.
#[derive(Clone, Copy, PartialEq, Eq, Structural, Debug)]
pub enum CacheError {
    /// The file's leading bytes do not match the current magic header.
    MagicMismatch,
    /// The magic matched but the embedded key bytes differ from the key
    /// computed for this entry.
    KeyMismatch,
    /// The file ends before the header could ever fit.
    TooShort,
    /// The entry handle was already closed.
    Closed,
}

} // verus!
