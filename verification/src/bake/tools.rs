//! Where the outside baking tools are looked for.

use crate::bake::const_tree::texts;
use crate::bake::obj2dl::{join_path, joined_path};
use crate::strings::push_text;
use vstd::prelude::*;

verus! {

/// The image tool below the development kit.
pub const GRIT_IN_KIT: &'static str = "tools/grit/grit";

/// The soundbank tool below the development kit.
pub const MMUTIL_IN_KIT: &'static str = "tools/mmutil/mmutil";

/// The text of an optional setting.
pub open spec fn setting(v: Option<String>) -> Option<Seq<char>> {
    match v {
        Some(t) => Some(t@),
        None => None,
    }
}

/// The places in order: the one named outright, the one in the kit, then every
/// directory of the search path.
pub open spec fn places(
    named: Option<Seq<char>>,
    kit: Option<Seq<char>>,
    in_kit: Seq<char>,
    dirs: Seq<Seq<char>>,
    name: Seq<char>,
) -> Seq<Seq<char>> {
    let first = match named {
        Some(p) => seq![p],
        None => Seq::empty(),
    };
    let second = match kit {
        Some(k) => seq![joined_path(k, in_kit)],
        None => Seq::empty(),
    };
    first + second + Seq::new(dirs.len(), |i: int| joined_path(dirs[i], name))
}

/// Where to look for a tool, best place first; the first that is a file is taken.
pub fn tool_places(
    named: &Option<String>,
    kit: &Option<String>,
    in_kit: &str,
    dirs: &Vec<String>,
    name: &str,
) -> (r: Vec<String>)
    ensures
        texts(r@) == places(setting(*named), setting(*kit), in_kit@, texts(dirs@), name@),
{
    let mut out: Vec<String> = Vec::new();
    if let Some(p) = named {
        let mut t: String = String::new();
        push_text(&mut t, p.as_str());
        assert(t@ =~= p@);
        out.push(t);
    }
    if let Some(k) = kit {
        out.push(join_path(k.as_str(), in_kit));
    }
    let ghost start = places(setting(*named), setting(*kit), in_kit@, Seq::empty(), name@);
    assert(texts(out@) =~= start);
    let ghost all = texts(dirs@);
    let mut i: usize = 0;
    assert(start + Seq::new(0, |k: int| joined_path(all[k], name@)) =~= start);
    while i < dirs.len()
        invariant
            i <= dirs.len(),
            all == texts(dirs@),
            texts(out@) == start + Seq::new(i as nat, |k: int| joined_path(all[k], name@)),
        decreases dirs.len() - i,
    {
        let ghost before = out@;
        assert(all[i as int] == dirs@[i as int]@);
        out.push(join_path(dirs[i].as_str(), name));
        assert(texts(out@) =~= texts(before).push(joined_path(all[i as int], name@)));
        assert(texts(out@) =~= start + Seq::new(
            (i + 1) as nat,
            |k: int| joined_path(all[k], name@),
        ));
        i = i + 1;
    }
    assert(texts(out@) =~= places(setting(*named), setting(*kit), in_kit@, all, name@));
    out
}

} // verus!
