//! The linker settings a game build asks cargo for.

use crate::bake::const_tree::texts;
use crate::strings::{chars_of, push_text, text};
use vstd::prelude::*;

verus! {

/// The handheld's name within a target's name.
pub const HANDHELD: &'static str = "nintendo-ds";

/// What is said when the development kit is not to be found.
pub const NO_KIT: &'static str =
    "cargo:warning=BLOCKSDS is not set. Run `nix develop` first so the DS toolchain and libnds can be found.";

/// `part` stands somewhere in `whole`.
pub open spec fn holds(whole: Seq<char>, part: Seq<char>) -> bool {
    exists|at: int| #[trigger] stands_at(whole, part, at)
}

/// `part` stands in `whole` at `at`.
pub open spec fn stands_at(whole: Seq<char>, part: Seq<char>, at: int) -> bool {
    0 <= at <= whole.len() - part.len() && whole.subrange(at, at + part.len()) == part
}

/// The lines for the handheld, with the kit at `kit`: the processor, the startup
/// code of the kit, then the libraries as one group.
pub open spec fn kit_lines(kit: Seq<char>) -> Seq<Seq<char>> {
    seq![
        "cargo:rustc-link-arg=-mthumb"@,
        "cargo:rustc-link-arg=-mcpu=arm946e-s+nofp"@,
        "cargo:rustc-link-arg=-specs="@ + kit + "/sys/crts/ds_arm9.specs"@,
        "cargo:rustc-link-search=native="@ + kit + "/libs/libnds/lib"@,
        "cargo:rustc-link-search=native="@ + kit + "/libs/maxmod/lib"@,
        "cargo:rustc-link-arg=-Wl,--start-group"@,
        "cargo:rustc-link-arg=-lnds9"@,
        "cargo:rustc-link-arg=-lmm9"@,
        "cargo:rustc-link-arg=-lc"@,
        "cargo:rustc-link-arg=-lgcc"@,
        "cargo:rustc-link-arg=-Wl,--end-group"@,
        "cargo:rerun-if-env-changed=BLOCKSDS"@,
    ]
}

/// The lines for a build of `target`: none but on the handheld, and only the
/// warning where the kit is missing.
pub open spec fn link_text(target: Seq<char>, kit: Option<Seq<char>>) -> Seq<Seq<char>> {
    if !holds(target, HANDHELD@) {
        Seq::empty()
    } else {
        match kit {
            Some(k) => kit_lines(k),
            None => seq![NO_KIT@],
        }
    }
}

/// Does `part` stand at `at`?
fn is_at(whole: &Vec<char>, part: &Vec<char>, at: usize) -> (r: bool)
    requires
        at + part.len() <= whole.len(),
    ensures
        r == stands_at(whole@, part@, at as int),
{
    let mut k: usize = 0;
    while k < part.len()
        invariant
            k <= part.len(),
            at + part.len() <= whole.len(),
            forall|j: int| 0 <= j < k ==> whole@[at + j] == part@[j],
        decreases part.len() - k,
    {
        if whole[at + k] != part[k] {
            assert(whole@.subrange(at as int, at + part@.len())[k as int] != part@[k as int]);
            return false;
        }
        k = k + 1;
    }
    assert(whole@.subrange(at as int, at + part@.len()) =~= part@);
    true
}

/// Does `part` stand somewhere in `whole`?
pub fn has_part(whole: &str, part: &str) -> (r: bool)
    ensures
        r == holds(whole@, part@),
{
    let w: Vec<char> = chars_of(whole);
    let p: Vec<char> = chars_of(part);
    let mut at: usize = 0;
    while at <= w.len() && p.len() <= w.len() - at
        invariant
            at <= w.len() + 1,
            w@ == whole@,
            p@ == part@,
            forall|j: int| 0 <= j < at ==> !#[trigger] stands_at(w@, p@, j),
        decreases w.len() + 1 - at,
    {
        if is_at(&w, &p, at) {
            return true;
        }
        if at == w.len() {
            assert forall|j: int| !#[trigger] stands_at(w@, p@, j) by {}
            return false;
        }
        at = at + 1;
    }
    false
}

/// `a`, the kit's place, `b`.
fn placed(a: &str, kit: &str, b: &str) -> (r: String)
    ensures
        r@ == a@ + kit@ + b@,
{
    let mut out: String = text(a);
    push_text(&mut out, kit);
    push_text(&mut out, b);
    out
}

/// What a build script prints for a build of `target` with the kit at `kit`.
pub fn link_lines(target: &str, kit: Option<&str>) -> (r: Vec<String>)
    ensures
        texts(r@) == link_text(
            target@,
            match kit {
                Some(k) => Some(k@),
                None => None,
            },
        ),
{
    let mut out: Vec<String> = Vec::new();
    if !has_part(target, HANDHELD) {
        assert(texts(out@) =~= Seq::<Seq<char>>::empty());
        return out;
    }
    match kit {
        None => {
            out.push(text(NO_KIT));
            assert(texts(out@) =~= seq![NO_KIT@]);
        },
        Some(k) => {
            out.push(text("cargo:rustc-link-arg=-mthumb"));
            out.push(text("cargo:rustc-link-arg=-mcpu=arm946e-s+nofp"));
            out.push(placed("cargo:rustc-link-arg=-specs=", k, "/sys/crts/ds_arm9.specs"));
            out.push(placed("cargo:rustc-link-search=native=", k, "/libs/libnds/lib"));
            out.push(placed("cargo:rustc-link-search=native=", k, "/libs/maxmod/lib"));
            out.push(text("cargo:rustc-link-arg=-Wl,--start-group"));
            out.push(text("cargo:rustc-link-arg=-lnds9"));
            out.push(text("cargo:rustc-link-arg=-lmm9"));
            out.push(text("cargo:rustc-link-arg=-lc"));
            out.push(text("cargo:rustc-link-arg=-lgcc"));
            out.push(text("cargo:rustc-link-arg=-Wl,--end-group"));
            out.push(text("cargo:rerun-if-env-changed=BLOCKSDS"));
            assert(texts(out@) =~= kit_lines(k@));
        },
    }
    out
}

} // verus!
