//! The namespace and import resolution engine: resolves import statements
//! against content fetched from the content-addressed store, merges their
//! payloads into the document's namespace tree, and validates structural
//! constraints (consumability, depth bounds, occupied slots,
//! self-reference).
//!
//! Store lookups themselves are outside work: the engine receives each
//! import's resolution outcome as a value and is verified for every
//! outcome.

use vstd::prelude::*;
use vstd::string::StrSliceExecFns;
use crate::ast::{
    Offsets, Problem, ErrorCode, Namespace, NamespaceItem, NamespaceNode, NamespaceNodeElement,
    DispairImportItem, ImportConfiguration, ParsedItem, Binding, BindingItem, ConstantBindingItem,
};

verus! {

/// Most levels an import target path may name.
pub const NAMESPACE_DEPTH_LIMIT: usize = 32;

/// Most levels of embedded-document imports that are followed.
pub const IMPORT_DEPTH_LIMIT: usize = 32;

/// The magic kinds of a meta sequence's items that consumability counts.
#[derive(Debug, Clone, Copy, PartialEq, Eq, Structural)]
pub enum KnownMagic {
    DotrainV1,
    InterpreterCallerMetaV1,
    ExpressionDeployerV2BytecodeV1,
    Other,
}

/// One decoded item of a fetched meta sequence: its magic kind and the
/// payload materialized from it. An embedded document arrives as its
/// already-resolved namespace; items of other kinds carry nothing the
/// engine reads.
#[derive(Debug, PartialEq)]
pub struct MetaItem {
    pub magic: KnownMagic,
    pub element: MetaElement,
}

/// The payload of one meta sequence item.
#[derive(Debug, PartialEq)]
pub enum MetaElement {
    Dispair(DispairImportItem),
    Dotrain(Namespace),
    Opaque,
}

/// Number of items of one magic kind in a sequence.
pub open spec fn count_magic(s: Seq<MetaItem>, m: KnownMagic) -> nat
    decreases s.len(),
{
    if s.len() == 0 {
        0
    } else {
        count_magic(s.drop_last(), m) + (if s.last().magic == m {
            1nat
        } else {
            0nat
        })
    }
}

/// Consumability of a meta sequence: at most one each of document,
/// caller-meta and deployer-bytecode items, and at least one of the three.
pub open spec fn spec_consumable(s: Seq<MetaItem>) -> bool {
    &&& s.len() > 0
    &&& count_magic(s, KnownMagic::DotrainV1) <= 1
    &&& count_magic(s, KnownMagic::InterpreterCallerMetaV1) <= 1
    &&& count_magic(s, KnownMagic::ExpressionDeployerV2BytecodeV1) <= 1
    &&& count_magic(s, KnownMagic::DotrainV1) + count_magic(s, KnownMagic::InterpreterCallerMetaV1)
        + count_magic(s, KnownMagic::ExpressionDeployerV2BytecodeV1) >= 1
}

/// Checks whether a meta sequence is consumable for a document.
pub fn is_consumable(items: &Vec<MetaItem>) -> (r: bool)
    ensures
        r == spec_consumable(items@),
{
    if items.len() == 0 {
        return false;
    }
    let mut dotrains: usize = 0;
    let mut callers: usize = 0;
    let mut dispairs: usize = 0;
    let mut i: usize = 0;
    while i < items.len()
        invariant
            0 <= i <= items@.len(),
            dotrains == count_magic(items@.take(i as int), KnownMagic::DotrainV1),
            callers == count_magic(items@.take(i as int), KnownMagic::InterpreterCallerMetaV1),
            dispairs == count_magic(
                items@.take(i as int),
                KnownMagic::ExpressionDeployerV2BytecodeV1,
            ),
            dotrains <= i && callers <= i && dispairs <= i,
        decreases items@.len() - i,
    {
        proof {
            assert(items@.take(i + 1).drop_last() =~= items@.take(i as int));
            assert(items@.take(i + 1).last() == items@[i as int]);
        }
        match items[i].magic {
            KnownMagic::DotrainV1 => {
                dotrains += 1;
            },
            KnownMagic::InterpreterCallerMetaV1 => {
                callers += 1;
            },
            KnownMagic::ExpressionDeployerV2BytecodeV1 => {
                dispairs += 1;
            },
            KnownMagic::Other => {},
        }
        i += 1;
    }
    proof {
        assert(items@.take(items@.len() as int) =~= items@);
    }
    !(dispairs > 1 || callers > 1 || dotrains > 1 || dispairs + callers + dotrains == 0)
}

/// Compares two strings by characters.
pub fn str_eq(a: &str, b: &str) -> (r: bool)
    ensures
        r == (a@ == b@),
{
    let alen = a.unicode_len();
    let blen = b.unicode_len();
    if alen != blen {
        return false;
    }
    let mut i: usize = 0;
    while i < alen
        invariant
            alen == a@.len(),
            blen == b@.len(),
            alen == blen,
            0 <= i <= alen,
            forall|j: int| 0 <= j < i ==> a@[j] == b@[j],
        decreases alen - i,
    {
        if a.get_char(i) != b.get_char(i) {
            return false;
        }
        i += 1;
    }
    proof {
        assert(a@ =~= b@);
    }
    true
}

/// The item under a name in an entry list, first match.
pub open spec fn seq_get(entries: Seq<(String, NamespaceItem)>, name: Seq<char>) -> Option<
    NamespaceItem,
>
    decreases entries.len(),
{
    if entries.len() == 0 {
        None
    } else if entries[0].0@ == name {
        Some(entries[0].1)
    } else {
        seq_get(entries.drop_first(), name)
    }
}

/// No two entries share a key.
pub open spec fn keys_unique(entries: Seq<(String, NamespaceItem)>) -> bool {
    forall|i: int, j: int|
        0 <= i < j < entries.len() ==> (#[trigger] entries[i]).0@ != (#[trigger] entries[j]).0@
}

/// Index of the first entry under a name, or the entry count when the
/// name is absent.
pub open spec fn key_index(entries: Seq<(String, NamespaceItem)>, name: Seq<char>) -> int
    decreases entries.len(),
{
    if entries.len() == 0 {
        0
    } else if entries[0].0@ == name {
        0
    } else {
        1 + key_index(entries.drop_first(), name)
    }
}

/// `key_index` against `seq_get`: the first hit carries the found item,
/// and an absent name indexes past the end.
pub proof fn lemma_key_index(entries: Seq<(String, NamespaceItem)>, name: Seq<char>)
    ensures
        0 <= key_index(entries, name) <= entries.len(),
        key_index(entries, name) < entries.len() ==> entries[key_index(entries, name)].0@ == name
            && seq_get(entries, name) == Some(entries[key_index(entries, name)].1),
        key_index(entries, name) == entries.len() <==> seq_get(entries, name) is None,
        forall|j: int| 0 <= j < key_index(entries, name) ==> (#[trigger] entries[j]).0@ != name,
    decreases entries.len(),
{
    if entries.len() > 0 && entries[0].0@ != name {
        lemma_key_index(entries.drop_first(), name);
        assert forall|j: int|
            0 <= j < key_index(entries, name) implies (#[trigger] entries[j]).0@ != name by {
            if j > 0 {
                assert(entries.drop_first()[j - 1] == entries[j]);
            }
        }
        if key_index(entries.drop_first(), name) < entries.drop_first().len() {
            assert(entries[key_index(entries, name)] == entries.drop_first()[key_index(
                entries.drop_first(),
                name,
            )]);
        }
    }
}

/// Looking a name up after appending an entry: the old entries win, the
/// new one answers only for its own, previously absent, key.
proof fn lemma_seq_get_push(entries: Seq<(String, NamespaceItem)>, p: (String, NamespaceItem), name: Seq<char>)
    ensures
        seq_get(entries.push(p), name) == (if seq_get(entries, name) is Some {
            seq_get(entries, name)
        } else if p.0@ == name {
            Some(p.1)
        } else {
            Option::<NamespaceItem>::None
        }),
    decreases entries.len(),
{
    if entries.len() == 0 {
        assert(entries.push(p).drop_first() =~= Seq::<(String, NamespaceItem)>::empty());
        assert(entries.push(p)[0] == p);
        if p.0@ == name {
            assert(seq_get(entries.push(p), name) == Some(p.1));
        } else {
            assert(seq_get(entries.push(p), name) == seq_get(
                entries.push(p).drop_first(),
                name,
            ));
            assert(seq_get(entries.push(p), name) is None);
        }
    } else {
        assert(entries.push(p)[0] == entries[0]);
        assert(entries.push(p).drop_first() == entries.drop_first().push(p)) by {
            assert(entries.push(p).drop_first() =~= entries.drop_first().push(p));
        }
        lemma_seq_get_push(entries.drop_first(), p, name);
        if entries[0].0@ == name {
            assert(seq_get(entries.push(p), name) == Some(entries[0].1));
            assert(seq_get(entries, name) == Some(entries[0].1));
        } else {
            assert(seq_get(entries.push(p), name) == seq_get(
                entries.drop_first().push(p),
                name,
            ));
            assert(seq_get(entries, name) == seq_get(entries.drop_first(), name));
        }
    }
}

impl Namespace {
    /// The empty namespace.
    pub fn new() -> (r: Namespace)
        ensures
            r.entries@.len() == 0,
            keys_unique(r.entries@),
    {
        Namespace { entries: Vec::new() }
    }

    /// The item under a name, if any.
    pub open spec fn spec_get(&self, name: Seq<char>) -> Option<NamespaceItem> {
        seq_get(self.entries@, name)
    }

    /// Index of the first entry under a name.
    fn find_key(&self, key: &str) -> (r: Option<usize>)
        ensures
            match r {
                Some(i) => i < self.entries@.len() && self.entries@[i as int].0@ == key@
                    && self.spec_get(key@) == Some(self.entries@[i as int].1) && i as int
                    == key_index(self.entries@, key@),
                None => self.spec_get(key@) is None && key_index(self.entries@, key@)
                    == self.entries@.len(),
            },
    {
        proof {
            lemma_key_index(self.entries@, key@);
        }
        let mut i: usize = 0;
        proof {
            assert(self.entries@.skip(0) =~= self.entries@);
        }
        while i < self.entries.len()
            invariant
                0 <= i <= self.entries@.len(),
                forall|j: int| 0 <= j < i ==> (#[trigger] self.entries@[j]).0@ != key@,
                seq_get(self.entries@, key@) == seq_get(self.entries@.skip(i as int), key@),
            decreases self.entries@.len() - i,
        {
            proof {
                assert(self.entries@.skip(i as int)[0] == self.entries@[i as int]);
                assert(self.entries@.skip(i as int).drop_first() =~= self.entries@.skip(i + 1));
            }
            if str_eq(self.entries[i].0.as_str(), key) {
                proof {
                    lemma_key_index(self.entries@, key@);
                    if key_index(self.entries@, key@) < i {
                        assert(self.entries@[key_index(self.entries@, key@)].0@ == key@);
                    }
                }
                return Some(i);
            }
            i += 1;
        }
        proof {
            assert(self.entries@.skip(self.entries@.len() as int) =~= Seq::<(
                String,
                NamespaceItem,
            )>::empty());
        }
        None
    }

    /// A borrowed view of the item under a name.
    pub fn get(&self, key: &str) -> (r: Option<&NamespaceItem>)
        ensures
            match r {
                Some(item) => self.spec_get(key@) == Some(*item),
                None => self.spec_get(key@) is None,
            },
    {
        match self.find_key(key) {
            Some(i) => Some(&self.entries[i].1),
            None => None,
        }
    }
}

/// Well-formedness of a namespace: keys are unique at every level.
pub open spec fn ns_wf(ns: Namespace) -> bool
    decreases ns,
{
    &&& keys_unique(ns.entries@)
    &&& forall|i: int| 0 <= i < ns.entries@.len() ==> item_wf(#[trigger] ns.entries@[i].1)
}

/// Well-formedness of one namespace item.
pub open spec fn item_wf(item: NamespaceItem) -> bool
    decreases item,
{
    match item {
        NamespaceItem::Node(_) => true,
        NamespaceItem::Namespace(ns) => ns_wf(ns),
    }
}

impl Namespace {
    /// Checks well-formedness at runtime: keys distinct at every level.
    /// Namespaces built by this engine's own functions are well-formed by
    /// their contracts; this check lets outside callers establish the same
    /// for trees they assembled themselves.
    pub fn check_wf(&self) -> (r: bool)
        ensures
            r == ns_wf(*self),
        decreases *self,
    {
        let n = self.entries.len();
        let mut i: usize = 0;
        while i < n
            invariant
                n == self.entries@.len(),
                0 <= i <= n,
                forall|a: int, b: int|
                    0 <= a < b < i ==> (#[trigger] self.entries@[a]).0@ != (
                    #[trigger] self.entries@[b]).0@,
            decreases n - i,
        {
            let mut j: usize = 0;
            while j < i
                invariant
                    n == self.entries@.len(),
                    0 <= j <= i < n,
                    forall|a: int, b: int|
                        0 <= a < b < i ==> (#[trigger] self.entries@[a]).0@ != (
                        #[trigger] self.entries@[b]).0@,
                    forall|a: int|
                        0 <= a < j ==> (#[trigger] self.entries@[a]).0@
                            != self.entries@[i as int].0@,
                decreases i - j,
            {
                if str_eq(self.entries[j].0.as_str(), self.entries[i].0.as_str()) {
                    proof {
                        assert(!keys_unique(self.entries@));
                    }
                    return false;
                }
                j += 1;
            }
            i += 1;
        }
        let mut k: usize = 0;
        while k < n
            invariant
                n == self.entries@.len(),
                0 <= k <= n,
                keys_unique(self.entries@),
                forall|a: int| 0 <= a < k ==> item_wf(#[trigger] self.entries@[a].1),
            decreases n - k,
        {
            match &self.entries[k].1 {
                NamespaceItem::Node(_) => {},
                NamespaceItem::Namespace(sub) => {
                    proof {
                        assert(decreases_to!(*self => self.entries));
                        assert(decreases_to!(self.entries => self.entries@));
                        assert(decreases_to!(self.entries@ => self.entries@[k as int]));
                        assert(decreases_to!(self.entries@[k as int] => self.entries@[
                            k as int].1));
                        assert(decreases_to!(self.entries@[k as int].1 => *sub));
                    }
                    if !sub.check_wf() {
                        proof {
                            assert(!item_wf(self.entries@[k as int].1));
                        }
                        return false;
                    }
                },
            }
            k += 1;
        }
        true
    }
}

/// Structural kind of two namespace items agreeing: both nested
/// namespaces, both bindings, or both deployer descriptors.
pub open spec fn same_kind(a: NamespaceItem, b: NamespaceItem) -> bool {
    match (a, b) {
        (NamespaceItem::Node(x), NamespaceItem::Node(y)) => (x.element is Binding <==> y.element
            is Binding),
        (NamespaceItem::Namespace(_), NamespaceItem::Namespace(_)) => true,
        _ => false,
    }
}

/// Decides whether two items hold structurally different kinds of entry.
fn kinds_differ(a: &NamespaceItem, b: &NamespaceItem) -> (r: bool)
    ensures
        r == !same_kind(*a, *b),
{
    match (a, b) {
        (NamespaceItem::Node(x), NamespaceItem::Node(y)) => {
            let xb = matches!(x.element, NamespaceNodeElement::Binding(_));
            let yb = matches!(y.element, NamespaceNodeElement::Binding(_));
            xb != yb
        },
        (NamespaceItem::Namespace(_), NamespaceItem::Namespace(_)) => false,
        _ => true,
    }
}

/// Merges the entries of `src` into `dst` at one level. An occupied name
/// is never overwritten: re-importing content that is already there leaves
/// the tree as it was, and a name that already holds a structurally
/// different kind of entry is reported as `NamespaceOccupied` at `pos`.
pub fn merge_level(dst: Namespace, src: Namespace, pos: Offsets) -> (r: (Namespace, Vec<Problem>))
    requires
        ns_wf(dst),
        ns_wf(src),
    ensures
        ns_wf(r.0),
        // what was there stays exactly as it was
        forall|n: Seq<char>|
            seq_get(dst.entries@, n) is Some ==> #[trigger] seq_get(r.0.entries@, n) == seq_get(
                dst.entries@,
                n,
            ),
        // a free name takes the imported entry
        forall|n: Seq<char>|
            seq_get(dst.entries@, n) is None ==> #[trigger] seq_get(r.0.entries@, n) == seq_get(
                src.entries@,
                n,
            ),
        // every problem is an occupied-slot report at the given position
        forall|i: int|
            0 <= i < r.1@.len() ==> (#[trigger] r.1@[i]).code == ErrorCode::NamespaceOccupied
                && r.1@[i].position == pos,
        // and one is raised exactly when an imported name collides with an
        // entry of a different kind
        (exists|i: int|
            0 <= i < src.entries@.len() && seq_get(
                dst.entries@,
                (#[trigger] src.entries@[i]).0@,
            ) is Some && !same_kind(
                seq_get(dst.entries@, src.entries@[i].0@)->0,
                src.entries@[i].1,
            )) <==> r.1@.len() > 0,
        // importing what is already there changes nothing at all
        (forall|i: int|
            0 <= i < src.entries@.len() ==> seq_get(
                dst.entries@,
                (#[trigger] src.entries@[i]).0@,
            ) == Some(src.entries@[i].1)) ==> r.0.entries@ == dst.entries@,
{
    let ghost src0 = src.entries@;
    let ghost dst0 = dst.entries@;
    let mut out = dst;
    let mut src = src;
    let mut problems: Vec<Problem> = Vec::new();
    proof {
        assert(src0.skip(src0.len() as int) =~= Seq::<(String, NamespaceItem)>::empty());
        assert(src0.take(src0.len() as int) =~= src0);
    }
    while src.entries.len() > 0
        invariant
            keys_unique(dst0),
            keys_unique(src0),
            forall|i: int| 0 <= i < src0.len() ==> item_wf(#[trigger] src0[i].1),
            keys_unique(out.entries@),
            forall|i: int| 0 <= i < out.entries@.len() ==> item_wf(#[trigger] out.entries@[i].1),
            src.entries@.len() <= src0.len(),
            src.entries@ == src0.take(src.entries@.len() as int),
            forall|n: Seq<char>|
                seq_get(dst0, n) is Some ==> #[trigger] seq_get(out.entries@, n) == seq_get(
                    dst0,
                    n,
                ),
            forall|n: Seq<char>|
                seq_get(dst0, n) is None ==> #[trigger] seq_get(out.entries@, n) == seq_get(
                    src0.skip(src.entries@.len() as int),
                    n,
                ),
            forall|i: int|
                0 <= i < problems@.len() ==> (#[trigger] problems@[i]).code
                    == ErrorCode::NamespaceOccupied && problems@[i].position == pos,
            (exists|i: int|
                src.entries@.len() <= i < src0.len() && seq_get(
                    dst0,
                    (#[trigger] src0[i]).0@,
                ) is Some && !same_kind(seq_get(dst0, src0[i].0@)->0, src0[i].1)) <==> problems@.len()
                > 0,
            (forall|i: int|
                src.entries@.len() <= i < src0.len() ==> seq_get(
                    dst0,
                    (#[trigger] src0[i]).0@,
                ) == Some(src0[i].1)) ==> out.entries@ == dst0,
            dst0 == dst.entries@,
        decreases src.entries@.len(),
    {
        let ghost cur = src.entries@.len() as int;
        proof {
            assert(src.entries@[cur - 1] == src0[cur - 1]);
        }
        let popped = src.entries.pop();
        let (key, item) = match popped {
            Some(p) => p,
            None => {
                proof {
                    assert(false);
                }
                unreached()
            },
        };
        proof {
            assert(src.entries@ =~= src0.take(cur - 1));
            assert((key, item) == src0[cur - 1]);
            assert(src0.skip(cur - 1)[0] == src0[cur - 1]);
            assert(src0.skip(cur - 1).drop_first() =~= src0.skip(cur));
        }
        let ghost out_before = out.entries@;
        let ghost probs_before = problems@;
        match out.find_key(key.as_str()) {
            Some(j) => {
                proof {
                    // a hit can only be an original entry: the processed
                    // source keys are distinct from this one
                    if seq_get(dst0, key@) is None {
                        assert(seq_get(out.entries@, key@) == seq_get(src0.skip(cur), key@));
                        lemma_seq_get_skip_absent(src0, cur, key@);
                        assert(false);
                    }
                    assert(seq_get(dst0, key@) == Some(out.entries@[j as int].1));
                }
                let conflict = kinds_differ(&out.entries[j].1, &item);
                if conflict {
                    let p = ErrorCode::NamespaceOccupied.to_problem(Vec::new(), pos);
                    problems.push(p);
                }
                proof {
                    assert forall|n: Seq<char>|
                        seq_get(dst0, n) is None implies #[trigger] seq_get(out.entries@, n)
                        == seq_get(src0.skip(cur - 1), n) by {
                        assert(n != key@);
                        assert(seq_get(src0.skip(cur - 1), n) == seq_get(src0.skip(cur), n));
                    }
                    if conflict {
                        assert(seq_get(dst0, (src0[cur - 1]).0@) is Some && !same_kind(
                            seq_get(dst0, src0[cur - 1].0@)->0,
                            src0[cur - 1].1,
                        ));
                        assert(problems@.len() > 0);
                    } else {
                        assert(same_kind(seq_get(dst0, src0[cur - 1].0@)->0, src0[cur - 1].1));
                        assert((exists|i: int|
                            cur - 1 <= i < src0.len() && seq_get(
                                dst0,
                                (#[trigger] src0[i]).0@,
                            ) is Some && !same_kind(
                                seq_get(dst0, src0[i].0@)->0,
                                src0[i].1,
                            )) <==> (exists|i: int|
                            cur <= i < src0.len() && seq_get(
                                dst0,
                                (#[trigger] src0[i]).0@,
                            ) is Some && !same_kind(
                                seq_get(dst0, src0[i].0@)->0,
                                src0[i].1,
                            )));
                    }
                    if (forall|i: int|
                        cur - 1 <= i < src0.len() ==> seq_get(
                            dst0,
                            (#[trigger] src0[i]).0@,
                        ) == Some(src0[i].1)) {
                        assert(seq_get(dst0, src0[cur - 1].0@) == Some(src0[cur - 1].1));
                        assert(out.entries@ == dst0);
                    }
                }
            },
            None => {
                proof {
                    assert(seq_get(dst0, key@) is None) by {
                        if seq_get(dst0, key@) is Some {
                            assert(seq_get(out.entries@, key@) == seq_get(dst0, key@));
                        }
                    }
                    // this key was not pushed before: it does not occur
                    // among the processed source entries
                    lemma_seq_get_skip_absent(src0, cur, key@);
                    assert(seq_get(src0.skip(cur), key@) is None);
                    assert(seq_get(out.entries@, key@) is None);
                    lemma_keys_unique_push(out.entries@, key@);
                }
                let ghost pp = (key, item);
                proof {
                    assert(item_wf(pp.1)) by {
                        assert(pp.1 == src0[cur - 1].1);
                    }
                }
                out.entries.push((key, item));
                proof {
                    assert(out.entries@ == out_before.push(pp));
                    assert(forall|i: int|
                        0 <= i < out.entries@.len() ==> item_wf(#[trigger] out.entries@[i].1));
                    assert forall|n: Seq<char>|
                        seq_get(dst0, n) is Some implies #[trigger] seq_get(out.entries@, n)
                        == seq_get(dst0, n) by {
                        lemma_seq_get_push(out_before, pp, n);
                        assert(n != key@);
                        assert(seq_get(out_before, n) == seq_get(dst0, n));
                    }
                    assert forall|n: Seq<char>|
                        seq_get(dst0, n) is None implies #[trigger] seq_get(out.entries@, n)
                        == seq_get(src0.skip(cur - 1), n) by {
                        lemma_seq_get_push(out_before, pp, n);
                        if n == key@ {
                            assert(seq_get(out_before, n) is None);
                            assert(seq_get(out.entries@, n) == Some(pp.1));
                            assert(seq_get(src0.skip(cur - 1), n) == Some(src0[cur - 1].1));
                        } else {
                            assert(seq_get(src0.skip(cur - 1), n) == seq_get(
                                src0.skip(cur),
                                n,
                            ));
                        }
                    }
                    assert((exists|i: int|
                        cur - 1 <= i < src0.len() && seq_get(
                            dst0,
                            (#[trigger] src0[i]).0@,
                        ) is Some && !same_kind(
                            seq_get(dst0, src0[i].0@)->0,
                            src0[i].1,
                        )) <==> (exists|i: int|
                        cur <= i < src0.len() && seq_get(
                            dst0,
                            (#[trigger] src0[i]).0@,
                        ) is Some && !same_kind(
                            seq_get(dst0, src0[i].0@)->0,
                            src0[i].1,
                        )));
                }
            },
        }
    }
    proof {
        assert(src0.skip(0) =~= src0);
    }
    (out, problems)
}

/// A name under none of the keys of an entry list is not found in it.
proof fn lemma_seq_get_none(s: Seq<(String, NamespaceItem)>, name: Seq<char>)
    requires
        forall|i: int| 0 <= i < s.len() ==> (#[trigger] s[i]).0@ != name,
    ensures
        seq_get(s, name) is None,
    decreases s.len(),
{
    if s.len() > 0 {
        assert(forall|i: int|
            0 <= i < s.drop_first().len() ==> (#[trigger] s.drop_first()[i]).0@ != name);
        lemma_seq_get_none(s.drop_first(), name);
    }
}

/// A key that occurs before position `cur` of a unique-key entry list does
/// not occur in the tail from `cur` on.
proof fn lemma_seq_get_skip_absent(s: Seq<(String, NamespaceItem)>, cur: int, name: Seq<char>)
    requires
        keys_unique(s),
        0 < cur <= s.len(),
        s[cur - 1].0@ == name,
    ensures
        seq_get(s.skip(cur), name) is None,
{
    assert forall|i: int|
        0 <= i < s.skip(cur).len() implies (#[trigger] s.skip(cur)[i]).0@ != name by {
        assert(s.skip(cur)[i] == s[cur + i]);
    }
    lemma_seq_get_none(s.skip(cur), name);
}

/// Appending a fresh key keeps an entry list's keys unique.
proof fn lemma_keys_unique_push(s: Seq<(String, NamespaceItem)>, name: Seq<char>)
    requires
        keys_unique(s),
        seq_get(s, name) is None,
    ensures
        forall|p: (String, NamespaceItem)| p.0@ == name ==> keys_unique(s.push(p)),
{
    assert forall|p: (String, NamespaceItem)| p.0@ == name implies keys_unique(s.push(p)) by {
        lemma_seq_get_absent_all(s, name);
        assert forall|i: int, j: int|
            0 <= i < j < s.push(p).len() implies (#[trigger] s.push(p)[i]).0@ != (
        #[trigger] s.push(p)[j]).0@ by {
            if j < s.len() {
                assert(s.push(p)[i] == s[i]);
                assert(s.push(p)[j] == s[j]);
            } else {
                assert(s.push(p)[i] == s[i]);
                assert(s.push(p)[j] == p);
                assert(s[i].0@ != name);
            }
        }
    }
}

/// A name absent from an entry list differs from every key in it.
proof fn lemma_seq_get_absent_all(s: Seq<(String, NamespaceItem)>, name: Seq<char>)
    requires
        seq_get(s, name) is None,
    ensures
        forall|i: int| 0 <= i < s.len() ==> (#[trigger] s[i]).0@ != name,
    decreases s.len(),
{
    if s.len() > 0 {
        lemma_seq_get_absent_all(s.drop_first(), name);
        assert forall|i: int| 0 <= i < s.len() implies (#[trigger] s[i]).0@ != name by {
            if i > 0 {
                assert(s.drop_first()[i - 1] == s[i]);
            }
        }
    }
}

/// Removing an entry of a unique-key list: its own key disappears, every
/// other name resolves as before.
proof fn lemma_seq_get_remove(s: Seq<(String, NamespaceItem)>, j: int, name: Seq<char>)
    requires
        keys_unique(s),
        0 <= j < s.len(),
    ensures
        seq_get(s.remove(j), name) == (if s[j].0@ == name {
            Option::<NamespaceItem>::None
        } else {
            seq_get(s, name)
        }),
        keys_unique(s.remove(j)),
    decreases s.len(),
{
    assert forall|a: int, b: int|
        0 <= a < b < s.remove(j).len() implies (#[trigger] s.remove(j)[a]).0@ != (
    #[trigger] s.remove(j)[b]).0@ by {
        assert(s.remove(j)[a] == (if a < j {
            s[a]
        } else {
            s[a + 1]
        }));
        assert(s.remove(j)[b] == (if b < j {
            s[b]
        } else {
            s[b + 1]
        }));
    }
    if j == 0 {
        assert(s.remove(0) =~= s.drop_first());
        if s[0].0@ == name {
            assert forall|i: int|
                0 <= i < s.drop_first().len() implies (#[trigger] s.drop_first()[i]).0@
                != name by {
                assert(s.drop_first()[i] == s[i + 1]);
            }
            lemma_seq_get_none(s.drop_first(), name);
        }
    } else {
        assert(s.remove(j)[0] == s[0]);
        assert(s.remove(j).drop_first() =~= s.drop_first().remove(j - 1));
        assert(s.drop_first()[j - 1] == s[j]);
        lemma_seq_get_remove(s.drop_first(), j - 1, name);
        if s[0].0@ == name {
            assert(s[j].0@ != name);
        }
    }
}

/// Merges `incoming` into the namespace reached from `ns` by following the
/// target path from segment `idx` on, creating missing levels on demand.
/// A path segment already occupied by a leaf is reported as
/// `NamespaceOccupied` and leaves the tree untouched; at the target level
/// the entries merge as in `merge_level`.
pub fn merge_at_path(
    ns: Namespace,
    path: &Vec<String>,
    idx: usize,
    incoming: Namespace,
    pos: Offsets,
) -> (r: (Namespace, Vec<Problem>))
    requires
        ns_wf(ns),
        ns_wf(incoming),
        idx <= path@.len(),
    ensures
        ns_wf(r.0),
        forall|i: int|
            0 <= i < r.1@.len() ==> (#[trigger] r.1@[i]).code == ErrorCode::NamespaceOccupied
                && r.1@[i].position == pos,
        idx < path@.len() ==> {
            &&& forall|n: Seq<char>|
                n != path@[idx as int]@ ==> #[trigger] seq_get(r.0.entries@, n) == seq_get(
                    ns.entries@,
                    n,
                )
            &&& (match seq_get(ns.entries@, path@[idx as int]@) {
                Some(NamespaceItem::Node(_)) => r.0.entries@ == ns.entries@ && r.1@.len() == 1,
                _ => seq_get(r.0.entries@, path@[idx as int]@) is Some && seq_get(
                    r.0.entries@,
                    path@[idx as int]@,
                )->0 is Namespace,
            })
        },
        idx == path@.len() ==> {
            &&& forall|n: Seq<char>|
                seq_get(ns.entries@, n) is Some ==> #[trigger] seq_get(r.0.entries@, n)
                    == seq_get(ns.entries@, n)
            &&& forall|n: Seq<char>|
                seq_get(ns.entries@, n) is None ==> #[trigger] seq_get(r.0.entries@, n)
                    == seq_get(incoming.entries@, n)
            &&& ((forall|i: int|
                0 <= i < incoming.entries@.len() ==> seq_get(
                    ns.entries@,
                    (#[trigger] incoming.entries@[i]).0@,
                ) == Some(incoming.entries@[i].1)) ==> r.0.entries@ == ns.entries@)
        },
    decreases path@.len() - idx,
{
    if idx >= path.len() {
        return merge_level(ns, incoming, pos);
    }
    let mut ns = ns;
    let seg = &path[idx];
    let found = ns.find_key(seg.as_str());
    match found {
        None => {
            let (sub, problems) = merge_at_path(Namespace::new(), path, idx + 1, incoming, pos);
            let ghost before = ns.entries@;
            proof {
                lemma_keys_unique_push(ns.entries@, seg@);
            }
            let k = seg.clone();
            let item = NamespaceItem::Namespace(sub);
            let ghost pp = (k, item);
            ns.entries.push((k, item));
            proof {
                assert(ns.entries@ == before.push(pp));
                assert forall|n: Seq<char>|
                    n != path@[idx as int]@ implies #[trigger] seq_get(ns.entries@, n) == seq_get(
                    before,
                    n,
                ) by {
                    lemma_seq_get_push(before, pp, n);
                }
                lemma_seq_get_push(before, pp, path@[idx as int]@);
                assert(forall|i: int|
                    0 <= i < ns.entries@.len() ==> item_wf(#[trigger] ns.entries@[i].1));
            }
            (ns, problems)
        },
        Some(j) => {
            let is_leaf = matches!(ns.entries[j].1, NamespaceItem::Node(_));
            if is_leaf {
                let p = ErrorCode::NamespaceOccupied.to_problem(Vec::new(), pos);
                let mut problems: Vec<Problem> = Vec::new();
                problems.push(p);
                return (ns, problems);
            }
            let ghost before = ns.entries@;
            let (key, item) = ns.entries.remove(j);
            let sub = match item {
                NamespaceItem::Namespace(sub) => sub,
                NamespaceItem::Node(_) => unreached(),
            };
            proof {
                assert(before[j as int].1 == NamespaceItem::Namespace(sub));
                assert(item_wf(before[j as int].1));
                lemma_seq_get_remove(before, j as int, path@[idx as int]@);
            }
            let (merged, problems) = merge_at_path(sub, path, idx + 1, incoming, pos);
            let ghost mid = ns.entries@;
            proof {
                lemma_seq_get_remove(before, j as int, key@);
                lemma_keys_unique_push(mid, key@);
            }
            let ghost pp = (key, NamespaceItem::Namespace(merged));
            let item2 = NamespaceItem::Namespace(merged);
            ns.entries.push((key, item2));
            proof {
                assert(ns.entries@ == mid.push(pp));
                assert forall|n: Seq<char>|
                    n != path@[idx as int]@ implies #[trigger] seq_get(ns.entries@, n) == seq_get(
                    before,
                    n,
                ) by {
                    lemma_seq_get_push(mid, pp, n);
                    lemma_seq_get_remove(before, j as int, n);
                }
                lemma_seq_get_push(mid, pp, path@[idx as int]@);
                assert(seq_get(ns.entries@, path@[idx as int]@) == Some(pp.1));
                assert forall|i: int|
                    0 <= i < ns.entries@.len() implies item_wf(#[trigger] ns.entries@[i].1) by {
                    if i < ns.entries@.len() - 1 {
                        assert(ns.entries@[i] == mid[i]);
                        assert(mid[i] == (if i < j {
                            before[i]
                        } else {
                            before[i + 1]
                        }));
                    } else {
                        assert(ns.entries@[i] == pp);
                    }
                }
            }
            (ns, problems)
        },
    }
}

/// Rewrites the hash and import-index tags of every node of an imported
/// namespace, so merged content names the import statement it came
/// through.
pub fn retag(ns: Namespace, hash: &String, import_index: isize) -> (r: Namespace)
    requires
        ns_wf(ns),
    ensures
        ns_wf(r),
        forall|n: Seq<char>|
            #[trigger] seq_get(r.entries@, n) is Some <==> seq_get(ns.entries@, n) is Some,
        forall|n: Seq<char>|
            seq_get(ns.entries@, n) is Some ==> match (
                seq_get(ns.entries@, n)->0,
                #[trigger] seq_get(r.entries@, n)->0,
            ) {
                (NamespaceItem::Node(x), NamespaceItem::Node(y)) => y.element == x.element
                    && y.hash@ == hash@ && y.import_index == import_index,
                (NamespaceItem::Namespace(_), NamespaceItem::Namespace(_)) => true,
                _ => false,
            },
{
    let ghost m = ns;
    retag_inner(ns, hash, import_index, Ghost(m))
}

fn retag_inner(ns: Namespace, hash: &String, import_index: isize, Ghost(m): Ghost<Namespace>) -> (r: Namespace)
    requires
        ns_wf(ns),
        m == ns,
    ensures
        ns_wf(r),
        forall|n: Seq<char>|
            #[trigger] seq_get(r.entries@, n) is Some <==> seq_get(ns.entries@, n) is Some,
        forall|n: Seq<char>|
            seq_get(ns.entries@, n) is Some ==> match (
                seq_get(ns.entries@, n)->0,
                #[trigger] seq_get(r.entries@, n)->0,
            ) {
                (NamespaceItem::Node(x), NamespaceItem::Node(y)) => y.element == x.element
                    && y.hash@ == hash@ && y.import_index == import_index,
                (NamespaceItem::Namespace(_), NamespaceItem::Namespace(_)) => true,
                _ => false,
            },
    decreases m,
{
    let ghost ns0 = ns;
    let mut work = ns;
    let mut out: Vec<(String, NamespaceItem)> = Vec::new();
    proof {
        assert(ns0.entries@.take(ns0.entries@.len() as int) =~= ns0.entries@);
        assert(ns0.entries@.skip(ns0.entries@.len() as int) =~= Seq::<(
            String,
            NamespaceItem,
        )>::empty());
    }
    while work.entries.len() > 0
        invariant
            ns_wf(ns0),
            work.entries@.len() <= ns0.entries@.len(),
            work.entries@ == ns0.entries@.take(work.entries@.len() as int),
            keys_unique(out@),
            forall|i: int| 0 <= i < out@.len() ==> item_wf(#[trigger] out@[i].1),
            ns0 == m,
            forall|n: Seq<char>|
                #[trigger] seq_get(out@, n) is Some <==> seq_get(
                    ns0.entries@.skip(work.entries@.len() as int),
                    n,
                ) is Some,
            forall|n: Seq<char>|
                seq_get(ns0.entries@.skip(work.entries@.len() as int), n) is Some ==> match (
                    seq_get(ns0.entries@.skip(work.entries@.len() as int), n)->0,
                    #[trigger] seq_get(out@, n)->0,
                ) {
                    (NamespaceItem::Node(x), NamespaceItem::Node(y)) => y.element == x.element
                        && y.hash@ == hash@ && y.import_index == import_index,
                    (NamespaceItem::Namespace(_), NamespaceItem::Namespace(_)) => true,
                    _ => false,
                },
        decreases work.entries@.len(),
    {
        let ghost cur = work.entries@.len() as int;
        proof {
            assert(work.entries@[cur - 1] == ns0.entries@[cur - 1]);
        }
        let popped = work.entries.pop();
        let (key, item) = match popped {
            Some(p) => p,
            None => unreached(),
        };
        proof {
            assert(work.entries@ =~= ns0.entries@.take(cur - 1));
            assert((key, item) == ns0.entries@[cur - 1]);
            assert(ns0.entries@.skip(cur - 1)[0] == ns0.entries@[cur - 1]);
            assert(ns0.entries@.skip(cur - 1).drop_first() =~= ns0.entries@.skip(cur));
            assert(item_wf(ns0.entries@[cur - 1].1));
            lemma_seq_get_skip_absent(ns0.entries@, cur, key@);
            assert(seq_get(ns0.entries@.skip(cur), key@) is None);
            assert(seq_get(out@, key@) is None);
            lemma_keys_unique_push(out@, key@);
        }
        let ghost out_before = out@;
        let new_item = match item {
            NamespaceItem::Node(node) => NamespaceItem::Node(
                NamespaceNode {
                    hash: hash.clone(),
                    import_index,
                    element: node.element,
                },
            ),
            NamespaceItem::Namespace(sub) => {
                proof {
                    assert(decreases_to!(ns0 => ns0.entries));
                    assert(decreases_to!(ns0.entries => ns0.entries@));
                    assert(decreases_to!(ns0.entries@ => ns0.entries@[cur - 1]));
                    assert(decreases_to!(ns0.entries@[cur - 1] => ns0.entries@[cur - 1].1));
                    assert(decreases_to!(ns0.entries@[cur - 1].1 => sub));
                    assert(decreases_to!(m => sub));
                }
                NamespaceItem::Namespace(retag_inner(sub, hash, import_index, Ghost(sub)))
            },
        };
        let ghost pp = (key, new_item);
        out.push((key, new_item));
        proof {
            assert(out@ == out_before.push(pp));
            assert(item_wf(pp.1));
            assert forall|n: Seq<char>| #![trigger seq_get(out@, n)]
                seq_get(out@, n) is Some <==> seq_get(ns0.entries@.skip(cur - 1), n) is Some by {
                lemma_seq_get_push(out_before, pp, n);
            }
            assert forall|n: Seq<char>| #![trigger seq_get(out@, n)]
                seq_get(ns0.entries@.skip(cur - 1), n) is Some implies match (
                seq_get(ns0.entries@.skip(cur - 1), n)->0,
                seq_get(out@, n)->0,
            ) {
                (NamespaceItem::Node(x), NamespaceItem::Node(y)) => y.element == x.element
                    && y.hash@ == hash@ && y.import_index == import_index,
                (NamespaceItem::Namespace(_), NamespaceItem::Namespace(_)) => true,
                _ => false,
            } by {
                lemma_seq_get_push(out_before, pp, n);
            }
        }
    }
    proof {
        assert(ns0.entries@.skip(0) =~= ns0.entries@);
    }
    Namespace { entries: out }
}

/// The deployer payload of the first deployer-bytecode item of a
/// sequence.
pub open spec fn find_dispair(s: Seq<MetaItem>) -> Option<DispairImportItem>
    decreases s.len(),
{
    if s.len() == 0 {
        None
    } else if s[0].element is Dispair {
        Some(s[0].element->Dispair_0)
    } else {
        find_dispair(s.drop_first())
    }
}

/// The embedded sub-document namespace of the first document-type item of
/// a sequence.
pub open spec fn find_dotrain(s: Seq<MetaItem>) -> Option<Namespace>
    decreases s.len(),
{
    if s.len() == 0 {
        None
    } else if s[0].element is Dotrain {
        Some(s[0].element->Dotrain_0)
    } else {
        find_dotrain(s.drop_first())
    }
}

/// Every embedded sub-document namespace of a sequence is well-formed.
pub open spec fn items_wf(s: Seq<MetaItem>) -> bool {
    forall|i: int|
        0 <= i < s.len() ==> ((#[trigger] s[i]).element is Dotrain ==> ns_wf(
            s[i].element->Dotrain_0,
        ))
}

/// Index of the first item of a sequence holding a deployer payload.
fn scan_dispair(items: &Vec<MetaItem>) -> (r: Option<usize>)
    ensures
        match r {
            Some(i) => i < items@.len() && items@[i as int].element is Dispair && find_dispair(
                items@,
            ) == Some(items@[i as int].element->Dispair_0),
            None => find_dispair(items@) is None,
        },
{
    let mut i: usize = 0;
    proof {
        assert(items@.skip(0) =~= items@);
    }
    while i < items.len()
        invariant
            0 <= i <= items@.len(),
            find_dispair(items@) == find_dispair(items@.skip(i as int)),
            forall|j: int| 0 <= j < i ==> !((#[trigger] items@[j]).element is Dispair),
        decreases items@.len() - i,
    {
        proof {
            assert(items@.skip(i as int)[0] == items@[i as int]);
            assert(items@.skip(i as int).drop_first() =~= items@.skip(i + 1));
        }
        if matches!(items[i].element, MetaElement::Dispair(_)) {
            return Some(i);
        }
        i += 1;
    }
    proof {
        assert(items@.skip(items@.len() as int) =~= Seq::<MetaItem>::empty());
    }
    None
}

/// Index of the first item of a sequence holding an embedded document.
fn scan_dotrain(items: &Vec<MetaItem>) -> (r: Option<usize>)
    ensures
        match r {
            Some(i) => i < items@.len() && items@[i as int].element is Dotrain && find_dotrain(
                items@,
            ) == Some(items@[i as int].element->Dotrain_0),
            None => find_dotrain(items@) is None,
        },
{
    let mut i: usize = 0;
    proof {
        assert(items@.skip(0) =~= items@);
    }
    while i < items.len()
        invariant
            0 <= i <= items@.len(),
            find_dotrain(items@) == find_dotrain(items@.skip(i as int)),
            forall|j: int| 0 <= j < i ==> !((#[trigger] items@[j]).element is Dotrain),
        decreases items@.len() - i,
    {
        proof {
            assert(items@.skip(i as int)[0] == items@[i as int]);
            assert(items@.skip(i as int).drop_first() =~= items@.skip(i + 1));
        }
        if matches!(items[i].element, MetaElement::Dotrain(_)) {
            return Some(i);
        }
        i += 1;
    }
    proof {
        assert(items@.skip(items@.len() as int) =~= Seq::<MetaItem>::empty());
    }
    None
}

/// Materializes a consumable meta sequence into the namespace an import
/// contributes: the embedded document's namespace retagged with this
/// import's hash and index, and any deployer payload as a `Dispair` node
/// under the name `dispair`.
pub fn materialize_items(
    items: Vec<MetaItem>,
    hash: &String,
    import_index: isize,
) -> (r: Namespace)
    requires
        items_wf(items@),
    ensures
        ns_wf(r),
        find_dispair(items@) is Some && !(find_dotrain(items@) is Some && seq_get(
            find_dotrain(items@)->0.entries@,
            "dispair"@,
        ) is Some) ==> (seq_get(r.entries@, "dispair"@) matches Some(
            NamespaceItem::Node(node),
        ) && node.element == NamespaceNodeElement::Dispair(find_dispair(items@)->0)
            && node.hash@ == hash@ && node.import_index == import_index),
        find_dispair(items@) is None && find_dotrain(items@) is None ==> r.entries@.len() == 0,
        forall|n: Seq<char>|
            n != "dispair"@ && find_dotrain(items@) is None ==> #[trigger] seq_get(
                r.entries@,
                n,
            ) is None,
        forall|n: Seq<char>|
            n != "dispair"@ && find_dotrain(items@) is Some ==> (#[trigger] seq_get(
                r.entries@,
                n,
            ) is Some <==> seq_get(find_dotrain(items@)->0.entries@, n) is Some),
        // the embedded document's entries come through with their elements
        // kept and their tags rewritten to this import
        forall|n: Seq<char>|
            n != "dispair"@ && find_dotrain(items@) is Some && seq_get(
                find_dotrain(items@)->0.entries@,
                n,
            ) is Some ==> match (
                seq_get(find_dotrain(items@)->0.entries@, n)->0,
                (#[trigger] seq_get(r.entries@, n))->0,
            ) {
                (NamespaceItem::Node(x), NamespaceItem::Node(y)) => y.element == x.element
                    && y.hash@ == hash@ && y.import_index == import_index,
                (NamespaceItem::Namespace(_), NamespaceItem::Namespace(_)) => true,
                _ => false,
            },
{
    let ghost items0 = items@;
    let mut items = items;
    let dispair_at = scan_dispair(&items);
    let dotrain_at = scan_dotrain(&items);
    let mut base = match dotrain_at {
        Some(i) => {
            let taken = items.remove(i);
            let sub = match taken.element {
                MetaElement::Dotrain(sub) => sub,
                _ => unreached(),
            };
            proof {
                assert(taken == items0[i as int]);
                assert(ns_wf(sub));
            }
            retag(sub, hash, import_index)
        },
        None => Namespace::new(),
    };
    // take the deployer payload out by its position in the original
    // sequence, shifted when the document item before it was removed
    let dispair = match dispair_at {
        Some(di) => {
            let adjusted = match dotrain_at {
                Some(ti) => if ti < di {
                    di - 1
                } else {
                    di
                },
                None => di,
            };
            proof {
                if dotrain_at is Some {
                    let ti = dotrain_at->0 as int;
                    assert(items0[di as int].element is Dispair);
                    assert(items0[ti].element is Dotrain);
                    assert(ti != di as int);
                    assert(items@ == items0.remove(ti));
                }
                assert(items@[adjusted as int] == items0[dispair_at->0 as int]);
            }
            let taken = items.remove(adjusted);
            match taken.element {
                MetaElement::Dispair(d) => Some(d),
                _ => unreached(),
            }
        },
        None => None,
    };
    match dispair {
        Some(d) => {
            let key = String::from_str("dispair");
            match base.find_key(key.as_str()) {
                Some(_) => base,
                None => {
                    proof {
                        lemma_keys_unique_push(base.entries@, key@);
                    }
                    let ghost before = base.entries@;
                    let node = NamespaceItem::Node(
                        NamespaceNode {
                            hash: hash.clone(),
                            import_index,
                            element: NamespaceNodeElement::Dispair(d),
                        },
                    );
                    let ghost pp = (key, node);
                    base.entries.push((key, node));
                    proof {
                        assert(base.entries@ == before.push(pp));
                        assert(forall|i: int|
                            0 <= i < base.entries@.len() ==> item_wf(
                                #[trigger] base.entries@[i].1,
                            ));
                        assert forall|n: Seq<char>| #![trigger seq_get(base.entries@, n)]
                            true implies seq_get(base.entries@, n) == (if seq_get(
                            before,
                            n,
                        ) is Some {
                            seq_get(before, n)
                        } else if n == pp.0@ {
                            Some(pp.1)
                        } else {
                            Option::<NamespaceItem>::None
                        }) by {
                            lemma_seq_get_push(before, pp, n);
                        }
                    }
                    base
                },
            }
        },
        None => base,
    }
}

/// The resolved payloads of an import statement: the embedded document
/// found behind its hash, when there is one.
#[derive(Debug, PartialEq)]
pub struct ImportSequence {
    pub dotrain: Option<Namespace>,
}

/// One import statement of a document.
#[derive(Debug, PartialEq)]
pub struct Import {
    pub name: String,
    pub name_position: Offsets,
    pub hash: String,
    pub hash_position: Offsets,
    pub configuration: Option<ImportConfiguration>,
    pub sequence: Option<ImportSequence>,
    pub position: Offsets,
}

/// What the content-addressed store handed back for one import, already
/// decoded: a miss, an undecodable payload, or a meta sequence.
#[derive(Debug, PartialEq)]
pub enum ImportContent {
    Unresolved,
    Corrupt,
    Sequence(Vec<MetaItem>),
}

/// Resolves one import statement into the document's namespace: validates
/// depth, self-reference, resolvability and consumability, and merges the
/// materialized payload at the import's target path. Every failure is a
/// problem on the import; the rest of the namespace is never touched.
pub fn resolve_import(
    ns: Namespace,
    doc_hash: &str,
    import_hash: &String,
    target_path: &Vec<String>,
    content: ImportContent,
    import_index: isize,
    depth: usize,
    hash_position: Offsets,
    position: Offsets,
) -> (r: (Namespace, Vec<Problem>))
    requires
        ns_wf(ns),
        content matches ImportContent::Sequence(items) ==> items_wf(items@),
    ensures
        ns_wf(r.0),
        depth > IMPORT_DEPTH_LIMIT ==> r.0.entries@ == ns.entries@ && r.1@.len() == 1
            && r.1@[0].code == ErrorCode::DeepImport && r.1@[0].position == hash_position,
        depth <= IMPORT_DEPTH_LIMIT && import_hash@ == doc_hash@ ==> r.0.entries@ == ns.entries@
            && r.1@.len() == 1 && r.1@[0].code == ErrorCode::InvalidSelfReference
            && r.1@[0].position == hash_position,
        depth <= IMPORT_DEPTH_LIMIT && import_hash@ != doc_hash@ ==> match content {
            ImportContent::Unresolved => r.0.entries@ == ns.entries@ && r.1@.len() == 1
                && r.1@[0].code == ErrorCode::UnresolvableDependencies && r.1@[0].position
                == hash_position,
            ImportContent::Corrupt => r.0.entries@ == ns.entries@ && r.1@.len() == 1
                && r.1@[0].code == ErrorCode::CorruptMeta && r.1@[0].position == position,
            ImportContent::Sequence(items) => {
                &&& !spec_consumable(items@) ==> r.0.entries@ == ns.entries@ && r.1@.len() == 1
                    && r.1@[0].code == ErrorCode::InconsumableMeta && r.1@[0].position == position
                &&& spec_consumable(items@) && target_path@.len() > NAMESPACE_DEPTH_LIMIT
                    ==> r.0.entries@ == ns.entries@ && r.1@.len() == 1 && r.1@[0].code
                    == ErrorCode::DeepNamespace && r.1@[0].position == position
                &&& spec_consumable(items@) && target_path@.len() <= NAMESPACE_DEPTH_LIMIT ==> (
                forall|i: int|
                    0 <= i < r.1@.len() ==> (#[trigger] r.1@[i]).code
                        == ErrorCode::NamespaceOccupied && r.1@[i].position == position)
                    && (target_path@.len() > 0 ==> forall|n: Seq<char>|
                    n != target_path@[0]@ ==> #[trigger] seq_get(r.0.entries@, n) == seq_get(
                        ns.entries@,
                        n,
                    ))
                // merged at the root: occupied names stay, free names take
                // the materialized entries, their elements kept and their
                // tags rewritten to this import
                &&& spec_consumable(items@) && target_path@.len() == 0 ==> {
                    &&& forall|n: Seq<char>|
                        seq_get(ns.entries@, n) is Some ==> #[trigger] seq_get(
                            r.0.entries@,
                            n,
                        ) == seq_get(ns.entries@, n)
                    &&& forall|n: Seq<char>|
                        seq_get(ns.entries@, n) is None && n != "dispair"@ && find_dotrain(
                            items@,
                        ) is Some ==> (#[trigger] seq_get(r.0.entries@, n) is Some <==> seq_get(
                            find_dotrain(items@)->0.entries@,
                            n,
                        ) is Some)
                    &&& forall|n: Seq<char>|
                        seq_get(ns.entries@, n) is None && n != "dispair"@ && find_dotrain(
                            items@,
                        ) is Some && seq_get(find_dotrain(items@)->0.entries@, n) is Some
                            ==> match (
                            seq_get(find_dotrain(items@)->0.entries@, n)->0,
                            (#[trigger] seq_get(r.0.entries@, n))->0,
                        ) {
                            (NamespaceItem::Node(x), NamespaceItem::Node(y)) => y.element
                                == x.element && y.hash@ == import_hash@ && y.import_index
                                == import_index,
                            (NamespaceItem::Namespace(_), NamespaceItem::Namespace(_)) => true,
                            _ => false,
                        }
                    &&& seq_get(ns.entries@, "dispair"@) is None && find_dispair(
                        items@,
                    ) is Some && !(find_dotrain(items@) is Some && seq_get(
                        find_dotrain(items@)->0.entries@,
                        "dispair"@,
                    ) is Some) ==> (seq_get(r.0.entries@, "dispair"@) matches Some(
                        NamespaceItem::Node(node),
                    ) && node.element == NamespaceNodeElement::Dispair(find_dispair(items@)->0)
                        && node.hash@ == import_hash@ && node.import_index == import_index)
                }
            },
        },
{
    if depth > IMPORT_DEPTH_LIMIT {
        let p = ErrorCode::DeepImport.to_problem(Vec::new(), hash_position);
        let mut problems: Vec<Problem> = Vec::new();
        problems.push(p);
        return (ns, problems);
    }
    if str_eq(import_hash.as_str(), doc_hash) {
        let p = ErrorCode::InvalidSelfReference.to_problem(Vec::new(), hash_position);
        let mut problems: Vec<Problem> = Vec::new();
        problems.push(p);
        return (ns, problems);
    }
    let items = match content {
        ImportContent::Unresolved => {
            let p = ErrorCode::UnresolvableDependencies.to_problem(Vec::new(), hash_position);
            let mut problems: Vec<Problem> = Vec::new();
            problems.push(p);
            return (ns, problems);
        },
        ImportContent::Corrupt => {
            let p = ErrorCode::CorruptMeta.to_problem(Vec::new(), position);
            let mut problems: Vec<Problem> = Vec::new();
            problems.push(p);
            return (ns, problems);
        },
        ImportContent::Sequence(items) => items,
    };
    if !is_consumable(&items) {
        let p = ErrorCode::InconsumableMeta.to_problem(Vec::new(), position);
        let mut problems: Vec<Problem> = Vec::new();
        problems.push(p);
        return (ns, problems);
    }
    if target_path.len() > NAMESPACE_DEPTH_LIMIT {
        let p = ErrorCode::DeepNamespace.to_problem(Vec::new(), position);
        let mut problems: Vec<Problem> = Vec::new();
        problems.push(p);
        return (ns, problems);
    }
    let incoming = materialize_items(items, import_hash, import_index);
    merge_at_path(ns, target_path, 0, incoming, position)
}

/// Whether one configuration pair speaks of the name `n`: as its rebind or
/// rename target (quote mark stripped), or as the new name of a rename.
pub open spec fn pair_touches(pair: (ParsedItem, Option<ParsedItem>), n: Seq<char>) -> bool {
    let t = pair.0.0@;
    let t2 = if t.len() > 0 && t[0] == '\'' {
        t.skip(1)
    } else {
        t
    };
    t2 == n || (pair.1 matches Some(v) && v.0@ == n)
}

/// Whether any of the first `upto` configuration pairs touches `n`.
pub open spec fn touches_upto(
    pairs: Seq<(ParsedItem, Option<ParsedItem>)>,
    upto: int,
    n: Seq<char>,
) -> bool {
    exists|i: int| 0 <= i < upto && pair_touches(#[trigger] pairs[i], n)
}

/// Whether a configuration speaks of the name `n` at all.
pub open spec fn config_touches(pairs: Seq<(ParsedItem, Option<ParsedItem>)>, n: Seq<char>) -> bool {
    touches_upto(pairs, pairs.len() as int, n)
}

/// A constant binding's leaf with its bound value replaced; any other
/// item unchanged.
pub open spec fn rebound_item(item: NamespaceItem, value: String) -> NamespaceItem {
    match item {
        NamespaceItem::Node(node) => match node.element {
            NamespaceNodeElement::Binding(b) => match b.item {
                BindingItem::Constant(_) => NamespaceItem::Node(
                    NamespaceNode {
                        hash: node.hash,
                        import_index: node.import_index,
                        element: NamespaceNodeElement::Binding(
                            Binding {
                                name: b.name,
                                name_position: b.name_position,
                                content: b.content,
                                content_position: b.content_position,
                                position: b.position,
                                problems: b.problems,
                                dependencies: b.dependencies,
                                item: BindingItem::Constant(ConstantBindingItem { value }),
                            },
                        ),
                    },
                ),
                _ => item,
            },
            _ => item,
        },
        _ => item,
    }
}

/// Whether an item is a constant binding's leaf.
pub open spec fn is_constant_leaf(item: NamespaceItem) -> bool {
    item is Node && item->Node_0.element is Binding && item->Node_0.element->Binding_0.item
        is Constant
}

/// What one configuration pair does to an entry list: a quoted pair moves
/// the entry it names to the new name, an unquoted pair replaces the value
/// of the constant binding it names; a malformed pair changes nothing.
pub open spec fn config_pair_result(
    entries: Seq<(String, NamespaceItem)>,
    pair: (ParsedItem, Option<ParsedItem>),
) -> Seq<(String, NamespaceItem)> {
    let t = pair.0.0@;
    if pair.1 is None {
        entries
    } else {
        let value = pair.1->0;
        if t.len() > 0 && t[0] == '\'' {
            let j = key_index(entries, t.skip(1));
            if j >= entries.len() {
                entries
            } else if key_index(entries, value.0@) < entries.len() {
                entries
            } else {
                entries.remove(j).push((value.0, entries[j].1))
            }
        } else {
            let j = key_index(entries, t);
            if j >= entries.len() {
                entries
            } else if !is_constant_leaf(entries[j].1) {
                entries
            } else {
                entries.remove(j).push((entries[j].0, rebound_item(entries[j].1, value.0)))
            }
        }
    }
}

/// The problem one configuration pair raises, if any, with its position.
pub open spec fn config_pair_problem(
    entries: Seq<(String, NamespaceItem)>,
    pair: (ParsedItem, Option<ParsedItem>),
) -> Option<(ErrorCode, Offsets)> {
    let t = pair.0.0@;
    if pair.1 is None {
        Some((ErrorCode::ExpectedRename, pair.0.1))
    } else {
        let value = pair.1->0;
        if t.len() > 0 && t[0] == '\'' {
            let j = key_index(entries, t.skip(1));
            if j >= entries.len() {
                Some((ErrorCode::UndefinedIdentifier, pair.0.1))
            } else if key_index(entries, value.0@) < entries.len() {
                Some((ErrorCode::NamespaceOccupied, value.1))
            } else {
                None
            }
        } else {
            let j = key_index(entries, t);
            if j >= entries.len() {
                Some((ErrorCode::UndefinedIdentifier, pair.0.1))
            } else if !is_constant_leaf(entries[j].1) {
                Some((ErrorCode::UnexpectedRebinding, pair.0.1))
            } else {
                None
            }
        }
    }
}

/// The entry list after the configuration pairs from `i` on, applied in
/// statement order.
pub open spec fn config_result(
    entries: Seq<(String, NamespaceItem)>,
    pairs: Seq<(ParsedItem, Option<ParsedItem>)>,
    i: int,
) -> Seq<(String, NamespaceItem)>
    decreases pairs.len() - i,
{
    if i < 0 || i >= pairs.len() {
        entries
    } else {
        config_result(config_pair_result(entries, pairs[i]), pairs, i + 1)
    }
}

/// The problems the configuration pairs from `i` on raise, in statement
/// order, as code and position.
pub open spec fn config_problems(
    entries: Seq<(String, NamespaceItem)>,
    pairs: Seq<(ParsedItem, Option<ParsedItem>)>,
    i: int,
) -> Seq<(ErrorCode, Offsets)>
    decreases pairs.len() - i,
{
    if i < 0 || i >= pairs.len() {
        Seq::empty()
    } else {
        (match config_pair_problem(entries, pairs[i]) {
            Some(p) => seq![p],
            None => Seq::empty(),
        }) + config_problems(config_pair_result(entries, pairs[i]), pairs, i + 1)
    }
}

/// Applies an import's configuration to its materialized namespace: a
/// quoted pair renames the binding it names, an unquoted pair replaces the
/// value of the constant binding it names. A malformed pair is a problem
/// on the import, never fatal: names the configuration does not speak of
/// are left exactly as they were.
pub fn apply_configuration(ns: Namespace, config: &ImportConfiguration) -> (r: (
    Namespace,
    Vec<Problem>,
))
    requires
        ns_wf(ns),
        forall|i: int| 0 <= i < config.pairs@.len() ==> (#[trigger] config.pairs@[i]).0.0.is_ascii(),
    ensures
        ns_wf(r.0),
        forall|i: int|
            0 <= i < r.1@.len() ==> ((#[trigger] r.1@[i]).code == ErrorCode::UndefinedIdentifier
                || r.1@[i].code == ErrorCode::NamespaceOccupied || r.1@[i].code
                == ErrorCode::UnexpectedRebinding || r.1@[i].code == ErrorCode::ExpectedRename),
        forall|n: Seq<char>|
            !config_touches(config.pairs@, n) ==> #[trigger] seq_get(r.0.entries@, n) == seq_get(
                ns.entries@,
                n,
            ),
        r.0.entries@ == config_result(ns.entries@, config.pairs@, 0),
        r.1@.len() == config_problems(ns.entries@, config.pairs@, 0).len(),
        forall|i: int|
            0 <= i < r.1@.len() ==> (#[trigger] r.1@[i]).code == config_problems(
                ns.entries@,
                config.pairs@,
                0,
            )[i].0 && r.1@[i].position == config_problems(ns.entries@, config.pairs@, 0)[i].1
                && r.1@[i].msg@ == Seq::<char>::empty(),
{
    let ghost ns0 = ns.entries@;
    let ghost full_probs = config_problems(ns.entries@, config.pairs@, 0);
    let mut ns = ns;
    let mut problems: Vec<Problem> = Vec::new();
    let mut pi: usize = 0;
    while pi < config.pairs.len()
        invariant
            0 <= pi <= config.pairs@.len(),
            forall|i: int|
                0 <= i < config.pairs@.len() ==> (#[trigger] config.pairs@[i]).0.0.is_ascii(),
            ns_wf(ns),
            forall|i: int|
                0 <= i < problems@.len() ==> ((#[trigger] problems@[i]).code
                    == ErrorCode::UndefinedIdentifier || problems@[i].code
                    == ErrorCode::NamespaceOccupied || problems@[i].code
                    == ErrorCode::UnexpectedRebinding || problems@[i].code
                    == ErrorCode::ExpectedRename),
            forall|n: Seq<char>|
                !touches_upto(config.pairs@, pi as int, n) ==> #[trigger] seq_get(
                    ns.entries@,
                    n,
                ) == seq_get(ns0, n),
            config_result(ns0, config.pairs@, 0) == config_result(
                ns.entries@,
                config.pairs@,
                pi as int,
            ),
            full_probs == config_problems(ns0, config.pairs@, 0),
            full_probs =~= problems@.map_values(|p: Problem| (p.code, p.position))
                + config_problems(ns.entries@, config.pairs@, pi as int),
            forall|i: int| 0 <= i < problems@.len() ==> (#[trigger] problems@[i]).msg@ =~= Seq::<
                char,
            >::empty(),
        decreases config.pairs@.len() - pi,
    {
        let ghost pair = config.pairs@[pi as int];
        let ghost probs_before = problems@;
        let target = &config.pairs[pi].0;
        let target_str = target.0.as_str();
        let tlen = target_str.unicode_len();
        let quoted = tlen > 0 && target_str.get_char(0) == '\'';
        let ghost before = ns.entries@;
        match &config.pairs[pi].1 {
            None => {
                let p = ErrorCode::ExpectedRename.to_problem(Vec::new(), target.1);
                problems.push(p);
                proof {
                    assert(ns.entries@ == config_pair_result(before, pair));
                    assert(config_pair_problem(before, pair) == Some((
                        ErrorCode::ExpectedRename,
                        pair.0.1,
                    )));
                    assert(problems@ == probs_before.push(p));
                }
            },
            Some(value) => {
                if quoted {
                    // a rename: move the binding to the new name
                    let old_key = target_str.substring_ascii(1, tlen);
                    proof {
                        assert(old_key@ == target.0@.skip(1));
                        assert(pair_touches(pair, old_key@));
                        assert(pair_touches(pair, value.0@));
                    }
                    match ns.find_key(old_key) {
                        None => {
                            let p = ErrorCode::UndefinedIdentifier.to_problem(
                                Vec::new(),
                                target.1,
                            );
                            problems.push(p);
                            proof {
                                assert(ns.entries@ == config_pair_result(before, pair));
                                assert(config_pair_problem(before, pair) == Some((
                                    ErrorCode::UndefinedIdentifier,
                                    pair.0.1,
                                )));
                                assert(problems@ == probs_before.push(p));
                            }
                        },
                        Some(j) => {
                            let occupied = ns.find_key(value.0.as_str());
                            match occupied {
                                Some(_) => {
                                    let p = ErrorCode::NamespaceOccupied.to_problem(
                                        Vec::new(),
                                        value.1,
                                    );
                                    problems.push(p);
                                    proof {
                                        assert(ns.entries@ == config_pair_result(before, pair));
                                        assert(config_pair_problem(before, pair) == Some((
                                            ErrorCode::NamespaceOccupied,
                                            value.1,
                                        )));
                                        assert(value.1 == (pair.1->0).1);
                                        assert(problems@ == probs_before.push(p));
                                    }
                                },
                                None => {
                                    proof {
                                        lemma_seq_get_remove(before, j as int, value.0@);
                                        lemma_seq_get_remove(before, j as int, old_key@);
                                    }
                                    let (_, item) = ns.entries.remove(j);
                                    proof {
                                        lemma_keys_unique_push(ns.entries@, value.0@);
                                        assert(item_wf(before[j as int].1));
                                    }
                                    let ghost mid = ns.entries@;
                                    let new_key = value.0.clone();
                                    let ghost pp = (new_key, item);
                                    ns.entries.push((new_key, item));
                                    proof {
                                        assert(ns.entries@ == mid.push(pp));
                                        assert forall|n: Seq<char>|
                                            n != old_key@ && n != value.0@ implies #[trigger] seq_get(
                                            ns.entries@,
                                            n,
                                        ) == seq_get(before, n) by {
                                            lemma_seq_get_push(mid, pp, n);
                                            lemma_seq_get_remove(before, j as int, n);
                                        }
                                        assert forall|i: int|
                                            0 <= i < ns.entries@.len() implies item_wf(
                                            #[trigger] ns.entries@[i].1,
                                        ) by {
                                            if i < ns.entries@.len() - 1 {
                                                assert(mid[i] == (if i < j {
                                                    before[i]
                                                } else {
                                                    before[i + 1]
                                                }));
                                            } else {
                                                assert(ns.entries@[i] == pp);
                                            }
                                        }
                                        assert(pp == ((pair.1->0).0, before[j as int].1));
                                        assert(ns.entries@ == before.remove(j as int).push((
                                            (pair.1->0).0,
                                            before[j as int].1,
                                        )));
                                        assert(ns.entries@ == config_pair_result(before, pair));
                                        assert(config_pair_problem(before, pair) is None);
                                        assert(problems@ == probs_before);
                                    }
                                },
                            }
                        },
                    }
                } else {
                    // a rebind: replace the value of a constant binding
                    proof {
                        assert(pair_touches(pair, target.0@));
                    }
                    match ns.find_key(target_str) {
                        None => {
                            let p = ErrorCode::UndefinedIdentifier.to_problem(
                                Vec::new(),
                                target.1,
                            );
                            problems.push(p);
                            proof {
                                assert(ns.entries@ == config_pair_result(before, pair));
                                assert(config_pair_problem(before, pair) == Some((
                                    ErrorCode::UndefinedIdentifier,
                                    pair.0.1,
                                )));
                                assert(problems@ == probs_before.push(p));
                            }
                        },
                        Some(j) => {
                            let is_constant = match &ns.entries[j].1 {
                                NamespaceItem::Node(node) => match &node.element {
                                    NamespaceNodeElement::Binding(b) => matches!(
                                        b.item,
                                        BindingItem::Constant(_),
                                    ),
                                    _ => false,
                                },
                                _ => false,
                            };
                            if !is_constant {
                                let p = ErrorCode::UnexpectedRebinding.to_problem(
                                    Vec::new(),
                                    target.1,
                                );
                                problems.push(p);
                                proof {
                                    assert(!is_constant_leaf(before[j as int].1));
                                    assert(ns.entries@ == config_pair_result(before, pair));
                                    assert(config_pair_problem(before, pair) == Some((
                                        ErrorCode::UnexpectedRebinding,
                                        pair.0.1,
                                    )));
                                    assert(problems@ == probs_before.push(p));
                                }
                            } else {
                                proof {
                                    lemma_seq_get_remove(before, j as int, target.0@);
                                }
                                let (key, item) = ns.entries.remove(j);
                                let node = match item {
                                    NamespaceItem::Node(node) => node,
                                    _ => unreached(),
                                };
                                let b = match node.element {
                                    NamespaceNodeElement::Binding(b) => b,
                                    _ => unreached(),
                                };
                                let new_item = NamespaceItem::Node(
                                    NamespaceNode {
                                        hash: node.hash,
                                        import_index: node.import_index,
                                        element: NamespaceNodeElement::Binding(
                                            Binding {
                                                name: b.name,
                                                name_position: b.name_position,
                                                content: b.content,
                                                content_position: b.content_position,
                                                position: b.position,
                                                problems: b.problems,
                                                dependencies: b.dependencies,
                                                item: BindingItem::Constant(
                                                    ConstantBindingItem { value: value.0.clone() },
                                                ),
                                            },
                                        ),
                                    },
                                );
                                proof {
                                    lemma_keys_unique_push(ns.entries@, key@);
                                }
                                let ghost mid = ns.entries@;
                                let ghost pp = (key, new_item);
                                ns.entries.push((key, new_item));
                                proof {
                                    assert(ns.entries@ == mid.push(pp));
                                    assert(key@ == target.0@);
                                    assert forall|n: Seq<char>|
                                        n != target.0@ implies #[trigger] seq_get(
                                        ns.entries@,
                                        n,
                                    ) == seq_get(before, n) by {
                                        lemma_seq_get_push(mid, pp, n);
                                        lemma_seq_get_remove(before, j as int, n);
                                    }
                                    assert forall|i: int|
                                        0 <= i < ns.entries@.len() implies item_wf(
                                        #[trigger] ns.entries@[i].1,
                                    ) by {
                                        if i < ns.entries@.len() - 1 {
                                            assert(mid[i] == (if i < j {
                                                before[i]
                                            } else {
                                                before[i + 1]
                                            }));
                                        } else {
                                            assert(ns.entries@[i] == pp);
                                        }
                                    }
                                    assert(is_constant_leaf(before[j as int].1));
                                    assert(pp.1 == rebound_item(before[j as int].1, (pair.1->0).0));
                                    assert(pp.0 == before[j as int].0);
                                    assert(ns.entries@ == before.remove(j as int).push((
                                        before[j as int].0,
                                        rebound_item(before[j as int].1, (pair.1->0).0),
                                    )));
                                    assert(ns.entries@ == config_pair_result(before, pair));
                                    assert(config_pair_problem(before, pair) is None);
                                    assert(problems@ == probs_before);
                                }
                            }
                        },
                    }
                }
            },
        }
        proof {
            assert forall|n: Seq<char>|
                !touches_upto(config.pairs@, pi + 1, n) implies #[trigger] seq_get(
                ns.entries@,
                n,
            ) == seq_get(ns0, n) by {
                assert(!pair_touches(pair, n));
                assert(!touches_upto(config.pairs@, pi as int, n));
            }
            // fold one configuration step into the running spec mirror
            assert(ns.entries@ == config_pair_result(before, pair));
            assert(config_result(before, config.pairs@, pi as int) == config_result(
                ns.entries@,
                config.pairs@,
                pi + 1,
            ));
            assert(config_problems(before, config.pairs@, pi as int) == (match config_pair_problem(
                before,
                pair,
            ) {
                Some(q) => seq![q],
                None => Seq::<(ErrorCode, Offsets)>::empty(),
            }) + config_problems(ns.entries@, config.pairs@, pi + 1));
            assert(full_probs =~= problems@.map_values(|p: Problem| (p.code, p.position))
                + config_problems(ns.entries@, config.pairs@, pi + 1)) by {
                match config_pair_problem(before, pair) {
                    Some(q) => {
                        assert(problems@.map_values(|p: Problem| (p.code, p.position))
                            =~= probs_before.map_values(|p: Problem| (p.code, p.position)).push(
                            q,
                        ));
                    },
                    None => {
                        assert(problems@ == probs_before);
                    },
                }
            }
        }
        pi += 1;
    }
    proof {
        assert(config_problems(ns.entries@, config.pairs@, config.pairs@.len() as int) =~= Seq::<
            (ErrorCode, Offsets),
        >::empty());
        assert(full_probs =~= problems@.map_values(|p: Problem| (p.code, p.position)));
        assert(full_probs == problems@.map_values(|p: Problem| (p.code, p.position)));
        assert forall|i: int|
            0 <= i < problems@.len() implies (#[trigger] problems@[i]).code == full_probs[i].0
            && problems@[i].position == full_probs[i].1 by {
            assert(full_probs[i] == problems@.map_values(|p: Problem| (p.code, p.position))[i]);
        }
    }
    (ns, problems)
}

} // verus!
