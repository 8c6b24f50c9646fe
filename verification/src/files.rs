use vstd::prelude::*;
use vstd::string::*;

verus! {

broadcast use vstd::seq_lib::group_to_multiset_ensures;

/// One note file as the front end lists it: its name under the corpus root,
/// its modification time in seconds since the epoch, its display title and
/// its full text.
pub struct FileItem {
    pub filename: String,
    pub mtime: u64,
    pub title: String,
    pub content: String,
}

/// Orders file items newest first, as the file listing shows them: the
/// result holds exactly the given items, with modification times
/// non-increasing.
pub fn sort_file_items(items: Vec<FileItem>) -> (r: Vec<FileItem>)
    ensures
        r@.to_multiset() == items@.to_multiset(),
        forall|i: int, j: int| 0 <= i < j < r@.len() ==> r@[i].mtime >= r@[j].mtime,
{
    let ghost whole = items@;
    let mut rest = items;
    let mut out: Vec<FileItem> = Vec::new();
    proof {
        assert(out@.to_multiset().add(rest@.to_multiset()) =~= whole.to_multiset());
    }
    while rest.len() > 0
        invariant
            out@.to_multiset().add(rest@.to_multiset()) == whole.to_multiset(),
            forall|i: int, j: int| 0 <= i < j < out@.len() ==> out@[i].mtime >= out@[j].mtime,
            forall|i: int, j: int|
                0 <= i < out@.len() && 0 <= j < rest@.len() ==> (#[trigger] out@[i]).mtime >= (
                #[trigger] rest@[j]).mtime,
        decreases rest@.len(),
    {
        let mut mi: usize = 0;
        let mut j: usize = 1;
        while j < rest.len()
            invariant
                mi < rest@.len(),
                j <= rest@.len(),
                forall|k: int| 0 <= k < j ==> rest@[mi as int].mtime >= (#[trigger] rest@[k]).mtime,
            decreases rest@.len() - j,
        {
            if rest[j].mtime > rest[mi].mtime {
                mi = j;
            }
            j = j + 1;
        }
        let ghost pre_rest = rest@;
        let ghost pre_out = out@;
        let x = rest.remove(mi);
        out.push(x);
        proof {
            assert(out@ == pre_out.push(x));
            assert(rest@ == pre_rest.remove(mi as int));
            assert(out@.to_multiset() =~= pre_out.to_multiset().insert(x));
            assert(rest@.to_multiset() =~= pre_rest.to_multiset().remove(x));
            assert(pre_rest.to_multiset().contains(x)) by {
                assert(pre_rest[mi as int] == x);
                assert(pre_rest.contains(x));
            }
            assert(out@.to_multiset().add(rest@.to_multiset()) =~= pre_out.to_multiset().add(
                pre_rest.to_multiset(),
            ));
            assert forall|a: int, b: int|
                0 <= a < out@.len() && 0 <= b < rest@.len() implies (#[trigger] out@[a]).mtime >= (
            #[trigger] rest@[b]).mtime by {
                let ob: int = if b < mi { b } else { b + 1 };
                assert(rest@[b] == pre_rest[ob]);
                if a < pre_out.len() {
                    assert(out@[a] == pre_out[a]);
                } else {
                    assert(out@[a] == x);
                    assert(x.mtime >= pre_rest[ob].mtime);
                }
            }
        }
    }
    out
}

/// Whether a link's scheme is one the front end may hand to the system
/// opener: exactly "http" or "https".
pub fn scheme_allowed(scheme: &str) -> (r: bool)
    ensures
        r == (scheme@ == "http"@ || scheme@ == "https"@),
{
    let s = scheme.to_owned();
    let http: String = String::from_str("http");
    let https: String = String::from_str("https");
    s == http || s == https
}

} // verus!
