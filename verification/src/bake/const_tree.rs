//! Generated Rust source that declares one path constant per baked asset, with
//! subdirectories as nested modules.

use crate::bake::names::{
    comes_before, lemma_lex_total, lemma_lex_transitive, lex_less,
    strictly_sorted,
};
use crate::strings::push_text;
use vstd::prelude::*;

verus! {

/// One constant to declare: the modules it stands in and its own name last, and
/// the path it resolves to.
pub struct ConstEntry {
    pub path: Vec<String>,
    pub target: String,
}

/// The texts of a list of strings.
pub open spec fn texts(v: Seq<String>) -> Seq<Seq<char>> {
    v.map_values(|s: String| s@)
}

/// A constant to declare, by its texts.
pub type EntryText = (Seq<Seq<char>>, Seq<char>);

impl ConstEntry {
    pub open spec fn text(self) -> EntryText {
        (texts(self.path@), self.target@)
    }
}

/// The texts of a list of entries.
pub open spec fn entry_texts(v: Seq<ConstEntry>) -> Seq<EntryText> {
    v.map_values(|e: ConstEntry| e.text())
}

/// Four spaces per level of nesting.
pub open spec fn pad(depth: nat) -> Seq<char>
    decreases depth,
{
    if depth == 0 {
        Seq::empty()
    } else {
        pad((depth - 1) as nat) + "    "@
    }
}

/// The declaration of one constant.
pub open spec fn const_line(depth: nat, name: Seq<char>, target: Seq<char>) -> Seq<char> {
    pad(depth) + "pub const "@ + name + ": &[u8] = b\""@ + target + "\\0\";\n"@
}

/// The declarations of the entries that stand in no further module, in order.
pub open spec fn const_lines(entries: Seq<EntryText>, depth: nat) -> Seq<char>
    decreases entries.len(),
{
    if entries.len() == 0 {
        Seq::empty()
    } else {
        let e = entries.last();
        const_lines(entries.drop_last(), depth) + if e.0.len() == 1 {
            const_line(depth, e.0[0], e.1)
        } else {
            Seq::empty()
        }
    }
}

/// `names` with `k` put in its place, unless it is there.
pub open spec fn insert_sorted(names: Seq<Seq<char>>, k: Seq<char>) -> Seq<Seq<char>>
    decreases names.len(),
{
    if names.len() == 0 {
        seq![k]
    } else if names.last() == k {
        names
    } else if lex_less(k, names.last()) {
        insert_sorted(names.drop_last(), k).push(names.last())
    } else {
        names.push(k)
    }
}

/// The modules that the entries stand in, sorted and without repetition.
pub open spec fn module_names(entries: Seq<EntryText>) -> Seq<Seq<char>>
    decreases entries.len(),
{
    if entries.len() == 0 {
        Seq::empty()
    } else {
        let rest = module_names(entries.drop_last());
        if entries.last().0.len() >= 2 {
            insert_sorted(rest, entries.last().0[0])
        } else {
            rest
        }
    }
}

/// The entries that stand in module `name`, as seen from inside it.
pub open spec fn entries_in(entries: Seq<EntryText>, name: Seq<char>) -> Seq<EntryText>
    decreases entries.len(),
{
    if entries.len() == 0 {
        Seq::empty()
    } else {
        let rest = entries_in(entries.drop_last(), name);
        let e = entries.last();
        if e.0.len() >= 2 && e.0[0] == name {
            rest.push((e.0.skip(1), e.1))
        } else {
            rest
        }
    }
}

/// The source for `entries`, at most `levels` modules deep: first the constants
/// that stand here, then each module in order.
pub open spec fn const_source(entries: Seq<EntryText>, depth: nat, levels: nat) -> Seq<char>
    decreases levels, module_names(entries).len() + 1,
{
    if levels == 0 {
        Seq::empty()
    } else {
        const_lines(entries, depth) + modules_source(entries, module_names(entries), depth, levels)
    }
}

/// The source for the modules `names`.
pub open spec fn modules_source(
    entries: Seq<EntryText>,
    names: Seq<Seq<char>>,
    depth: nat,
    levels: nat,
) -> Seq<char>
    decreases levels, names.len(),
{
    if names.len() == 0 || levels == 0 {
        Seq::empty()
    } else {
        modules_source(entries, names.drop_last(), depth, levels) + pad(depth) + "pub mod "@
            + names.last() + " {\n"@ + const_source(
            entries_in(entries, names.last()),
            depth + 1,
            (levels - 1) as nat,
        ) + pad(depth) + "}\n"@
    }
}

/// Length of the longest path.
pub open spec fn deepest(entries: Seq<EntryText>) -> nat
    decreases entries.len(),
{
    if entries.len() == 0 {
        0
    } else {
        let rest = deepest(entries.drop_last());
        if entries.last().0.len() > rest {
            entries.last().0.len()
        } else {
            rest
        }
    }
}

/// Every path names at least the constant itself.
pub open spec fn paths_named(entries: Seq<EntryText>) -> bool {
    forall|i: int| 0 <= i < entries.len() ==> (#[trigger] entries[i]).0.len() >= 1
}

/// Append the indentation for `depth`.
fn push_pad(out: &mut String, depth: usize)
    ensures
        final(out)@ == old(out)@ + pad(depth as nat),
{
    let mut i: usize = 0;
    assert(out@ =~= old(out)@ + pad(0));
    while i < depth
        invariant
            i <= depth,
            out@ == old(out)@ + pad(i as nat),
        decreases depth - i,
    {
        push_text(out, "    ");
        i = i + 1;
        assert(out@ =~= old(out)@ + pad(i as nat));
    }
}

/// Append the declaration of one constant.
pub(crate) fn push_const_line(out: &mut String, depth: usize, name: &String, target: &String)
    ensures
        final(out)@ == old(out)@ + const_line(depth as nat, name@, target@),
{
    push_pad(out, depth);
    push_text(out, "pub const ");
    push_text(out, name.as_str());
    push_text(out, ": &[u8] = b\"");
    push_text(out, target.as_str());
    push_text(out, "\\0\";\n");
    assert(out@ =~= old(out)@ + const_line(depth as nat, name@, target@));
}

/// Putting a name in its place does not touch the larger names behind it.
proof fn lemma_insert_behind(names: Seq<Seq<char>>, k: Seq<char>, i: int)
    requires
        0 <= i <= names.len(),
        forall|j: int| i <= j < names.len() ==> names[j] != k && lex_less(k, #[trigger] names[j]),
    ensures
        insert_sorted(names, k) == insert_sorted(names.take(i), k) + names.skip(i),
    decreases names.len(),
{
    if i == names.len() {
        assert(names.take(i) =~= names);
        assert(insert_sorted(names, k) + names.skip(i) =~= insert_sorted(names, k));
    } else {
        let init = names.drop_last();
        assert(names.last() == names[names.len() - 1]);
        lemma_insert_behind(init, k, i);
        assert(init.take(i) =~= names.take(i));
        assert(insert_sorted(init, k).push(names.last()) =~= insert_sorted(names.take(i), k)
            + names.skip(i));
    }
}

/// Put `k` in its place among sorted names.
pub(crate) fn insert_name(names: &mut Vec<String>, k: &String)
    ensures
        texts(final(names)@) == insert_sorted(texts(old(names)@), k@),
{
    let ghost before = texts(names@);
    let mut i: usize = names.len();
    while i > 0 && names[i - 1] != *k && comes_before(k.as_str(), names[i - 1].as_str())
        invariant
            i <= names.len(),
            before == texts(names@),
            forall|j: int|
                i <= j < names.len() ==> before[j] != k@ && lex_less(k@, #[trigger] before[j]),
        decreases i,
    {
        i = i - 1;
    }
    proof {
        lemma_insert_behind(before, k@, i as int);
        let head = before.take(i as int);
        if i > 0 {
            assert(head.last() == before[i - 1]);
        }
    }
    if i > 0 && names[i - 1] == *k {
        assert(before.take(i as int) + before.skip(i as int) =~= before);
        return;
    }
    names.insert(i, k.clone());
    proof {
        let head = before.take(i as int);
        let tail = before.skip(i as int);
        assert(insert_sorted(head, k@) =~= head.push(k@)) by {
            if i == 0 {
                assert(head.push(k@) =~= seq![k@]);
            }
        }
        assert(texts(names@) =~= head.push(k@) + tail);
    }
}

/// The names of the modules that `entries` stand in.
fn collect_modules(entries: &Vec<ConstEntry>) -> (names: Vec<String>)
    ensures
        texts(names@) == module_names(entry_texts(entries@)),
{
    let ghost all = entry_texts(entries@);
    let mut names: Vec<String> = Vec::new();
    let mut i: usize = 0;
    assert(texts(names@) =~= module_names(all.take(0)));
    while i < entries.len()
        invariant
            i <= entries.len(),
            all == entry_texts(entries@),
            texts(names@) == module_names(all.take(i as int)),
        decreases entries.len() - i,
    {
        proof {
            assert(all.take(i + 1).drop_last() =~= all.take(i as int));
            assert(all.take(i + 1).last() == entries@[i as int].text());
        }
        if entries[i].path.len() >= 2 {
            insert_name(&mut names, &entries[i].path[0]);
        }
        i = i + 1;
    }
    assert(all.take(entries.len() as int) =~= all);
    names
}

/// A copy of a list of strings.
pub fn copy_texts(v: &Vec<String>) -> (r: Vec<String>)
    ensures
        texts(r@) == texts(v@),
        r.len() == v.len(),
{
    let mut out: Vec<String> = Vec::new();
    let mut i: usize = 0;
    while i < v.len()
        invariant
            i <= v.len(),
            out.len() == i,
            forall|k: int| 0 <= k < i ==> (#[trigger] out@[k])@ == v@[k]@,
        decreases v.len() - i,
    {
        out.push(v[i].clone());
        i = i + 1;
    }
    assert(texts(out@) =~= texts(v@));
    out
}

/// A path without its first component.
fn path_tail(path: &Vec<String>) -> (r: Vec<String>)
    requires
        path.len() >= 1,
    ensures
        texts(r@) == texts(path@).skip(1),
{
    let mut out: Vec<String> = Vec::new();
    let mut i: usize = 1;
    while i < path.len()
        invariant
            1 <= i <= path.len(),
            texts(out@) == texts(path@).subrange(1, i as int),
        decreases path.len() - i,
    {
        let ghost before = out@;
        out.push(path[i].clone());
        assert(texts(out@) =~= texts(before).push(path@[i as int]@));
        assert(texts(path@).subrange(1, i + 1) =~= texts(path@).subrange(1, i as int).push(
            texts(path@)[i as int],
        ));
        i = i + 1;
    }
    assert(texts(path@).subrange(1, path.len() as int) =~= texts(path@).skip(1));
    out
}

/// The entries that stand in module `name`, as seen from inside it.
fn enter_module(entries: &Vec<ConstEntry>, name: &String) -> (r: Vec<ConstEntry>)
    ensures
        entry_texts(r@) == entries_in(entry_texts(entries@), name@),
{
    let ghost all = entry_texts(entries@);
    let mut out: Vec<ConstEntry> = Vec::new();
    let mut i: usize = 0;
    assert(entry_texts(out@) =~= entries_in(all.take(0), name@));
    while i < entries.len()
        invariant
            i <= entries.len(),
            all == entry_texts(entries@),
            entry_texts(out@) == entries_in(all.take(i as int), name@),
        decreases entries.len() - i,
    {
        proof {
            assert(all.take(i + 1).drop_last() =~= all.take(i as int));
            assert(all.take(i + 1).last() == entries@[i as int].text());
        }
        let e: &ConstEntry = &entries[i];
        if e.path.len() >= 2 && e.path[0] == *name {
            let ghost before = out@;
            let inner = ConstEntry { path: path_tail(&e.path), target: e.target.clone() };
            let ghost text = inner.text();
            out.push(inner);
            assert(entry_texts(out@) =~= entry_texts(before).push(text));
        }
        i = i + 1;
    }
    assert(all.take(entries.len() as int) =~= all);
    out
}

/// Inside a module every path is shorter and still names its constant.
proof fn lemma_entries_in(entries: Seq<EntryText>, name: Seq<char>, levels: nat)
    requires
        forall|i: int| 0 <= i < entries.len() ==> (#[trigger] entries[i]).0.len() <= levels,
    ensures
        paths_named(entries_in(entries, name)),
        forall|i: int|
            0 <= i < entries_in(entries, name).len() ==> (#[trigger] entries_in(
                entries,
                name,
            )[i]).0.len() < levels,
    decreases entries.len(),
{
    if entries.len() > 0 {
        let init = entries.drop_last();
        assert forall|i: int| 0 <= i < init.len() implies (#[trigger] init[i]).0.len() <= levels by {
            assert(init[i] == entries[i]);
        }
        assert(entries[entries.len() - 1].0.len() <= levels);
        lemma_entries_in(init, name, levels);
    }
}

/// Append the source for `entries`.
fn render(entries: &Vec<ConstEntry>, depth: usize, levels: usize, out: &mut String)
    requires
        depth + levels <= usize::MAX,
        forall|i: int|
            0 <= i < entries.len() ==> (#[trigger] entries@[i]).path.len() <= levels,
    ensures
        final(out)@ == old(out)@ + const_source(
            entry_texts(entries@),
            depth as nat,
            levels as nat,
        ),
    decreases levels,
{
    let ghost all = entry_texts(entries@);
    let ghost start = out@;
    if levels == 0 {
        assert(out@ =~= start + const_source(all, depth as nat, 0));
        return;
    }
    let mut i: usize = 0;
    assert(out@ =~= start + const_lines(all.take(0), depth as nat));
    while i < entries.len()
        invariant
            i <= entries.len(),
            all == entry_texts(entries@),
            out@ == start + const_lines(all.take(i as int), depth as nat),
        decreases entries.len() - i,
    {
        proof {
            assert(all.take(i + 1).drop_last() =~= all.take(i as int));
            assert(all.take(i + 1).last() == entries@[i as int].text());
        }
        let ghost mid = out@;
        let e: &ConstEntry = &entries[i];
        if e.path.len() == 1 {
            assert(e.text().0[0] == e.path@[0]@);
            push_const_line(out, depth, &e.path[0], &e.target);
        }
        assert(out@ =~= start + const_lines(all.take(i + 1), depth as nat));
        i = i + 1;
    }
    assert(all.take(entries.len() as int) =~= all);
    let ghost lines = out@;
    let names: Vec<String> = collect_modules(entries);
    let ghost name_texts = texts(names@);
    let mut k: usize = 0;
    assert(out@ =~= lines + modules_source(
        all,
        name_texts.take(0),
        depth as nat,
        levels as nat,
    ));
    while k < names.len()
        invariant
            k <= names.len(),
            levels > 0,
            depth + levels <= usize::MAX,
            all == entry_texts(entries@),
            name_texts == texts(names@),
            forall|i: int|
                0 <= i < entries.len() ==> (#[trigger] entries@[i]).path.len() <= levels,
            out@ == lines + modules_source(
                all,
                name_texts.take(k as int),
                depth as nat,
                levels as nat,
            ),
        decreases names.len() - k,
    {
        let ghost before = name_texts.take(k as int);
        let ghost after = name_texts.take(k + 1);
        let ghost mid = out@;
        proof {
            assert(after.drop_last() =~= before);
            assert(after.last() == names@[k as int]@);
            assert forall|i: int| 0 <= i < all.len() implies (#[trigger] all[i]).0.len() <= levels by {
                assert(entries@[i].path.len() <= levels);
            }
            lemma_entries_in(all, names@[k as int]@, levels as nat);
        }
        push_pad(out, depth);
        push_text(out, "pub mod ");
        push_text(out, names[k].as_str());
        push_text(out, " {\n");
        let inner: Vec<ConstEntry> = enter_module(entries, &names[k]);
        proof {
            assert forall|i: int| 0 <= i < inner.len() implies (#[trigger] inner@[i]).path.len()
                <= levels - 1 by {
                let t = entry_texts(inner@);
                assert(t[i].0.len() < levels);
                assert(t[i].0.len() == inner@[i].path.len());
            }
        }
        render(&inner, depth + 1, levels - 1, out);
        push_pad(out, depth);
        push_text(out, "}\n");
        assert(out@ =~= lines + modules_source(all, after, depth as nat, levels as nat));
        k = k + 1;
    }
    assert(name_texts.take(names.len() as int) =~= name_texts);
    assert(out@ =~= start + const_source(all, depth as nat, levels as nat));
}

/// No path is longer than the deepest.
proof fn lemma_deepest(entries: Seq<EntryText>, i: int)
    requires
        0 <= i < entries.len(),
    ensures
        entries[i].0.len() <= deepest(entries),
    decreases entries.len(),
{
    if i < entries.len() - 1 {
        lemma_deepest(entries.drop_last(), i);
    }
}

/// Length of the longest path.
fn longest_path(entries: &Vec<ConstEntry>) -> (n: usize)
    ensures
        n == deepest(entry_texts(entries@)),
{
    let ghost all = entry_texts(entries@);
    let mut n: usize = 0;
    let mut i: usize = 0;
    while i < entries.len()
        invariant
            i <= entries.len(),
            all == entry_texts(entries@),
            n == deepest(all.take(i as int)),
        decreases entries.len() - i,
    {
        proof {
            assert(all.take(i + 1).drop_last() =~= all.take(i as int));
            assert(all.take(i + 1).last() == entries@[i as int].text());
        }
        if entries[i].path.len() > n {
            n = entries[i].path.len();
        }
        i = i + 1;
    }
    assert(all.take(entries.len() as int) =~= all);
    n
}

/// The source that declares every entry, after the comment `banner`.
pub open spec fn const_module(banner: Seq<char>, entries: Seq<EntryText>) -> Seq<char> {
    banner + const_source(entries, 0, deepest(entries))
}

/// Generate the source that declares every entry, after the comment `banner`.
pub fn emit_const_module(banner: &str, entries: &Vec<ConstEntry>) -> (s: String)
    ensures
        s@ == const_module(banner@, entry_texts(entries@)),
{
    let mut s: String = String::new();
    push_text(&mut s, banner);
    let levels: usize = longest_path(entries);
    proof {
        assert forall|i: int| 0 <= i < entries.len() implies (#[trigger] entries@[i]).path.len()
            <= levels by {
            let t = entry_texts(entries@);
            lemma_deepest(t, i);
            assert(t[i].0.len() == entries@[i].path.len());
        }
    }
    assert(s@ =~= banner@);
    render(entries, 0, levels, &mut s);
    s
}

/// Putting a name in its place keeps sorted names sorted and adds just it.
pub proof fn lemma_insert_sorted(names: Seq<Seq<char>>, k: Seq<char>)
    requires
        strictly_sorted(names),
    ensures
        strictly_sorted(insert_sorted(names, k)),
        forall|x: Seq<char>|
            #[trigger] insert_sorted(names, k).contains(x) <==> (names.contains(x) || x == k),
    decreases names.len(),
{
    let r = insert_sorted(names, k);
    if names.len() == 0 {
        assert(r[0] == k);
        assert(forall|x: Seq<char>| r.contains(x) <==> x == k);
    } else if names.last() == k {
        assert(names[names.len() - 1] == k);
        assert(names.contains(k));
    } else if lex_less(k, names.last()) {
        let init = names.drop_last();
        let last = names.last();
        let sub = insert_sorted(init, k);
        lemma_insert_sorted(init, k);
        assert forall|i: int, j: int| 0 <= i < j < r.len() implies lex_less(r[i], r[j]) by {
            if j == r.len() - 1 {
                assert(sub.contains(sub[i]));
                if sub[i] != k {
                    assert(init.contains(sub[i]));
                    let w = choose|w: int| 0 <= w < init.len() && init[w] == sub[i];
                    assert(lex_less(names[w], names[names.len() - 1]));
                }
            } else {
                assert(lex_less(sub[i], sub[j]));
            }
        }
        assert forall|x: Seq<char>| #[trigger] r.contains(x) <==> (names.contains(x) || x == k) by {
            if r.contains(x) {
                let w = choose|w: int| 0 <= w < r.len() && r[w] == x;
                if w < sub.len() {
                    assert(sub[w] == x);
                    assert(sub.contains(x));
                    if x != k {
                        assert(init.contains(x));
                        let v = choose|v: int| 0 <= v < init.len() && init[v] == x;
                        assert(names[v] == x);
                    }
                } else {
                    assert(names[names.len() - 1] == x);
                }
            }
            if names.contains(x) {
                let w = choose|w: int| 0 <= w < names.len() && names[w] == x;
                if w < init.len() {
                    assert(init[w] == x);
                    assert(init.contains(x));
                    assert(sub.contains(x));
                    let v = choose|v: int| 0 <= v < sub.len() && sub[v] == x;
                    assert(r[v] == x);
                } else {
                    assert(r[r.len() - 1] == x);
                }
            }
            if x == k {
                assert(sub.contains(k));
                let v = choose|v: int| 0 <= v < sub.len() && sub[v] == k;
                assert(r[v] == k);
            }
        }
    } else {
        lemma_lex_total(names.last(), k);
        assert forall|i: int, j: int| 0 <= i < j < r.len() implies lex_less(r[i], r[j]) by {
            if j == r.len() - 1 {
                if i < names.len() - 1 {
                    assert(lex_less(names[i], names[names.len() - 1]));
                    lemma_lex_transitive(names[i], names.last(), k);
                }
            } else {
                assert(lex_less(names[i], names[j]));
            }
        }
        assert forall|x: Seq<char>| #[trigger] r.contains(x) <==> (names.contains(x) || x == k) by {
            if r.contains(x) {
                let w = choose|w: int| 0 <= w < r.len() && r[w] == x;
                if w < names.len() {
                    assert(names[w] == x);
                }
            }
            if names.contains(x) {
                let w = choose|w: int| 0 <= w < names.len() && names[w] == x;
                assert(r[w] == x);
            }
            if x == k {
                assert(r[r.len() - 1] == x);
            }
        }
    }
}

/// The generated modules come in dictionary order, each once, and there is one
/// for exactly each first component of a nested path.
pub proof fn law_modules_sorted_and_complete(entries: Seq<EntryText>)
    ensures
        strictly_sorted(module_names(entries)),
        forall|x: Seq<char>|
            module_names(entries).contains(x) <==> exists|i: int|
                0 <= i < entries.len() && (#[trigger] entries[i]).0.len() >= 2 && entries[i].0[0]
                    == x,
    decreases entries.len(),
{
    if entries.len() > 0 {
        let init = entries.drop_last();
        let e = entries.last();
        law_modules_sorted_and_complete(init);
        let rest = module_names(init);
        if e.0.len() >= 2 {
            lemma_insert_sorted(rest, e.0[0]);
        }
        assert forall|x: Seq<char>| module_names(entries).contains(x) <==> exists|i: int|
            0 <= i < entries.len() && (#[trigger] entries[i]).0.len() >= 2 && entries[i].0[0]
                == x by {
            if module_names(entries).contains(x) {
                if rest.contains(x) {
                    let i = choose|i: int|
                        0 <= i < init.len() && (#[trigger] init[i]).0.len() >= 2 && init[i].0[0]
                            == x;
                    assert(entries[i].0.len() >= 2 && entries[i].0[0] == x);
                } else {
                    assert(e.0.len() >= 2 && x == e.0[0]);
                    assert(entries[entries.len() - 1].0.len() >= 2 && entries[entries.len()
                        - 1].0[0] == x);
                }
            }
            if exists|i: int|
                0 <= i < entries.len() && (#[trigger] entries[i]).0.len() >= 2 && entries[i].0[0]
                    == x {
                let i = choose|i: int|
                    0 <= i < entries.len() && (#[trigger] entries[i]).0.len() >= 2
                        && entries[i].0[0] == x;
                if i < init.len() {
                    assert(init[i].0.len() >= 2 && init[i].0[0] == x);
                    assert(rest.contains(x));
                } else {
                    assert(e.0[0] == x);
                }
                if e.0.len() >= 2 {
                    assert(rest.contains(x) || x == e.0[0]);
                    assert(insert_sorted(rest, e.0[0]).contains(x));
                    assert(module_names(entries) == insert_sorted(rest, e.0[0]));
                } else {
                    assert(module_names(entries) == rest);
                }
            }
        }
    }
}

} // verus!
