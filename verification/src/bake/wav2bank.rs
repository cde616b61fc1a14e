//! Soundbank planning: which sources are baked, in which order, and the ids that
//! they get.

use crate::bake::const_tree::{copy_texts, texts};
use crate::bake::files::{keep_extension, split_file_name, stem_of, with_extension};
use crate::bake::levels::{sort_names, sorted_names};
use crate::bake::names::{const_name, upper_name};
use crate::bake::wav::{inject_forward_loop, injected, wav_info, WavInfo};
use crate::bytes::push_bytes;
use crate::strings::{push_text, text};
use vstd::prelude::*;

verus! {

/// Subdirectory of music sources, which loop.
pub const MUSIC_DIR: &'static str = "music";

/// Subdirectory of effect sources, which play once.
pub const SFX_DIR: &'static str = "sfx";

/// What a bake made.
pub struct Built {
    /// The compiled soundbank.
    pub soundbank: String,
    /// The generated module of ids.
    pub ids_rs: String,
    /// The sources, in the order of their ids.
    pub inputs: Vec<String>,
}

/// A named id.
pub struct Define {
    pub name: String,
    pub value: u32,
}

/// The constant name of a sample.
pub open spec fn sample_name(stem: Seq<char>) -> Seq<char> {
    "SFX_"@ + upper_name(stem)
}

/// The constant name of a sample.
pub fn sample_const_name(stem: &str) -> (r: String)
    ensures
        r@ == sample_name(stem@),
{
    let mut t: String = String::new();
    push_text(&mut t, "SFX_");
    push_text(&mut t, const_name(stem).as_str());
    assert(t@ =~= sample_name(stem@));
    t
}

/// The sound sources of a directory, sorted by name.
pub open spec fn collected(files: Seq<Seq<char>>) -> Seq<Seq<char>> {
    with_extension(sorted_names(files), "wav"@)
}

/// List the sound sources of a directory, sorted by name.
pub fn collect_wavs(files: &Vec<String>) -> (r: Vec<String>)
    ensures
        texts(r@) == collected(texts(files@)),
{
    keep_extension(&sort_names(files), "wav")
}

/// The sources in the order of their ids: music first, then effects.
pub open spec fn bank_order(music: Seq<Seq<char>>, sfx: Seq<Seq<char>>) -> Seq<Seq<char>> {
    collected(music) + collected(sfx)
}

/// Append the ids of these sources.
fn push_defines(out: &mut Vec<Define>, files: &Vec<String>)
    ensures
        final(out)@.len() == old(out)@.len() + files@.len(),
        forall|i: int| 0 <= i < old(out)@.len() ==> final(out)@[i] == old(out)@[i],
        forall|i: int|
            0 <= i < files@.len() ==> {
                &&& (#[trigger] final(out)@[old(out)@.len() + i]).name@ == sample_name(
                    stem_of(texts(files@)[i]),
                )
                &&& final(out)@[old(out)@.len() + i].value == (old(out)@.len() + i) as u32
            },
{
    let ghost start = out@;
    let mut i: usize = 0;
    while i < files.len()
        invariant
            i <= files.len(),
            out@.len() == start.len() + i,
            forall|k: int| 0 <= k < start.len() ==> out@[k] == start[k],
            forall|k: int|
                0 <= k < i ==> {
                    &&& (#[trigger] out@[start.len() + k]).name@ == sample_name(
                        stem_of(texts(files@)[k]),
                    )
                    &&& out@[start.len() + k].value == (start.len() + k) as u32
                },
        decreases files.len() - i,
    {
        let (stem, _ext) = split_file_name(files[i].as_str());
        let value: u32 = out.len() as u32;
        out.push(Define { name: sample_const_name(stem.as_str()), value });
        i = i + 1;
    }
}

/// Predict the ids that the soundbank tool assigns: music sources first, then
/// effects, each sorted by name, numbered from zero.
pub fn predict_ids(music: &Vec<String>, sfx: &Vec<String>) -> (r: Vec<Define>)
    ensures
        r@.len() == bank_order(texts(music@), texts(sfx@)).len(),
        forall|i: int|
            0 <= i < r@.len() ==> {
                &&& (#[trigger] r@[i]).name@ == sample_name(
                    stem_of(bank_order(texts(music@), texts(sfx@))[i]),
                )
                &&& r@[i].value == i as u32
            },
{
    let m: Vec<String> = collect_wavs(music);
    let s: Vec<String> = collect_wavs(sfx);
    let mut out: Vec<Define> = Vec::new();
    push_defines(&mut out, &m);
    let ghost mid = out@;
    assert forall|i: int| 0 <= i < mid.len() implies (#[trigger] mid[i]).name@ == sample_name(
        stem_of(texts(m@)[i]),
    ) && mid[i].value == i as u32 by {
        assert(mid[0 + i] == mid[i]);
    }
    push_defines(&mut out, &s);
    proof {
        let order = bank_order(texts(music@), texts(sfx@));
        assert forall|i: int| 0 <= i < out@.len() implies (#[trigger] out@[i]).name@ == sample_name(
            stem_of(order[i]),
        ) && out@[i].value == i as u32 by {
            if i < mid.len() {
                assert(out@[i] == mid[i]);
            } else {
                assert(out@[mid.len() + (i - mid.len())] == out@[i]);
                assert(order[i] == texts(s@)[i - mid.len()]);
            }
        }
    }
    out
}

/// One source as it goes into the soundbank.
pub struct Planned {
    pub file: String,
    /// Does it get a loop?
    pub looped: bool,
}

/// Plan a bake: the sources in the order of their ids, music looped, or the error
/// where there are none under `dir`.
pub fn plan_bank(dir: &str, music: &Vec<String>, sfx: &Vec<String>) -> (r: Result<
    Vec<Planned>,
    String,
>)
    ensures
        r is Ok <==> bank_order(texts(music@), texts(sfx@)).len() > 0,
        r matches Ok(v) ==> {
            &&& v@.len() == bank_order(texts(music@), texts(sfx@)).len()
            &&& forall|i: int|
                0 <= i < v@.len() ==> {
                    &&& (#[trigger] v@[i]).file@ == bank_order(texts(music@), texts(sfx@))[i]
                    &&& v@[i].looped == (i < collected(texts(music@)).len())
                }
        },
        r matches Err(e) ==> e@ == "no .wav files under "@ + dir@,
{
    let m: Vec<String> = collect_wavs(music);
    let s: Vec<String> = collect_wavs(sfx);
    let ghost order = bank_order(texts(music@), texts(sfx@));
    if m.len() == 0 && s.len() == 0 {
        let mut e: String = String::new();
        push_text(&mut e, "no .wav files under ");
        push_text(&mut e, dir);
        assert(e@ =~= "no .wav files under "@ + dir@);
        assert(texts(m@).len() == 0 && texts(s@).len() == 0);
        return Err(e);
    }
    assert(texts(m@).len() == m@.len() && texts(s@).len() == s@.len());
    let mut out: Vec<Planned> = Vec::new();
    let mut i: usize = 0;
    while i < m.len()
        invariant
            i <= m.len(),
            texts(m@) == collected(texts(music@)),
            order == bank_order(texts(music@), texts(sfx@)),
            out@.len() == i,
            forall|k: int|
                0 <= k < i ==> (#[trigger] out@[k]).file@ == order[k] && out@[k].looped,
        decreases m.len() - i,
    {
        assert(order[i as int] == texts(m@)[i as int]);
        out.push(Planned { file: m[i].clone(), looped: true });
        i = i + 1;
    }
    let mut j: usize = 0;
    while j < s.len()
        invariant
            j <= s.len(),
            texts(m@) == collected(texts(music@)),
            texts(s@) == collected(texts(sfx@)),
            texts(m@).len() == m@.len(),
            order == bank_order(texts(music@), texts(sfx@)),
            out@.len() == m@.len() + j,
            forall|k: int|
                0 <= k < m@.len() + j ==> (#[trigger] out@[k]).file@ == order[k] && out@[k].looped
                    == (k < m@.len()),
        decreases s.len() - j,
    {
        assert(order[m@.len() + j] == texts(s@)[j as int]);
        out.push(Planned { file: s[j].clone(), looped: false });
        j = j + 1;
    }
    Ok(out)
}

/// Prepare the bytes of one source: music gets a loop, effects stay as they are.
pub fn prepare(bytes: &[u8], looped: bool) -> (r: Result<Vec<u8>, String>)
    ensures
        r matches Ok(out) ==> out@ == if looped {
            injected(bytes@)
        } else {
            bytes@
        },
        r is Ok <==> !looped || wav_info(bytes@) is Ok,
        r matches Err(e) ==> wav_info(bytes@) == Err::<WavInfo, Seq<char>>(e@),
{
    if looped {
        inject_forward_loop(bytes)
    } else {
        let mut out: Vec<u8> = Vec::new();
        push_bytes(&mut out, bytes);
        assert(out@ =~= bytes@);
        Ok(out)
    }
}

/// What the soundbank tool is told: the prepared files, the handheld's format, the
/// bank to write and the header that names its sounds.
pub open spec fn told(files: Seq<Seq<char>>, bank: Seq<char>, header: Seq<char>) -> Seq<Seq<char>> {
    files + seq!["-d"@, "-o"@ + bank, "-h"@ + header]
}

/// The arguments for the soundbank tool.
pub fn bank_args(files: &Vec<String>, bank: &str, header: &str) -> (r: Vec<String>)
    ensures
        texts(r@) == told(texts(files@), bank@, header@),
{
    let mut out: Vec<String> = copy_texts(files);
    let mut o: String = text("-o");
    push_text(&mut o, bank);
    let mut h: String = text("-h");
    push_text(&mut h, header);
    out.push(text("-d"));
    out.push(o);
    out.push(h);
    assert(texts(out@) =~= told(texts(files@), bank@, header@));
    out
}

} // verus!
