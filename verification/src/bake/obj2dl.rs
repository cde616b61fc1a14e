//! Planning the compilation of a directory of models.

use crate::bake::const_tree::texts;
use crate::bake::files::{keep_extension, split_file_name, stem_of, with_extension};
use crate::bake::levels::{sort_names, sorted_names};
use crate::gpu::display_list::ASSET_EXT;
use crate::strings::{chars_of, push_text};
use vstd::prelude::*;

verus! {

/// One compiled model.
#[derive(Debug, Clone)]
pub struct Built {
    /// The source file.
    pub input: String,
    /// The compiled file.
    pub output: String,
}

/// A file below a directory.
pub open spec fn joined_path(dir: Seq<char>, name: Seq<char>) -> Seq<char> {
    if dir.len() == 0 || dir.last() == '/' {
        dir + name
    } else {
        dir.push('/') + name
    }
}

/// A file below a directory.
pub fn join_path(dir: &str, name: &str) -> (r: String)
    ensures
        r@ == joined_path(dir@, name@),
{
    let mut out: String = String::new();
    push_text(&mut out, dir);
    assert(out@ =~= dir@);
    let v: Vec<char> = chars_of(dir);
    if v.len() > 0 && v[v.len() - 1] != '/' {
        out.push('/');
    }
    push_text(&mut out, name);
    out
}

/// Every model source among the files of `src_dir`, sorted by name, with the file it
/// is compiled into: the same stem below `dst_dir`.
pub fn plan_dir(src_dir: &str, dst_dir: &str, files: &Vec<String>) -> (r: Vec<Built>)
    ensures
        ({
            let models = with_extension(sorted_names(texts(files@)), "obj"@);
            &&& r@.len() == models.len()
            &&& forall|i: int|
                0 <= i < models.len() ==> {
                    &&& (#[trigger] r@[i]).input@ == joined_path(src_dir@, models[i])
                    &&& r@[i].output@ == joined_path(
                        dst_dir@,
                        stem_of(models[i]) + "."@ + ASSET_EXT@,
                    )
                }
        }),
{
    let models: Vec<String> = keep_extension(&sort_names(files), "obj");
    let ghost all = texts(models@);
    let mut out: Vec<Built> = Vec::new();
    let mut i: usize = 0;
    while i < models.len()
        invariant
            i <= models.len(),
            out.len() == i,
            all == texts(models@),
            forall|k: int|
                0 <= k < i ==> {
                    &&& (#[trigger] out@[k]).input@ == joined_path(src_dir@, all[k])
                    &&& out@[k].output@ == joined_path(
                        dst_dir@,
                        stem_of(all[k]) + "."@ + ASSET_EXT@,
                    )
                },
        decreases models.len() - i,
    {
        assert(all[i as int] == models@[i as int]@);
        let (stem, _ext) = split_file_name(models[i].as_str());
        let mut name: String = stem;
        push_text(&mut name, ".");
        push_text(&mut name, ASSET_EXT);
        let input: String = join_path(src_dir, models[i].as_str());
        let output: String = join_path(dst_dir, name.as_str());
        out.push(Built { input, output });
        i = i + 1;
    }
    out
}

} // verus!
