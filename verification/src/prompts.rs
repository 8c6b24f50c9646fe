use vstd::prelude::*;
use vstd::string::*;

verus! {

/// One prompt preset of the completion front end: a display title and the
/// instruction sent along with a note.
pub struct Prompt {
    pub title: String,
    pub prompt: String,
}

/// The set of prompt presets, as the front end loads and stores it.
pub struct PromptConfig {
    pub prompts: Vec<Prompt>,
}

/// The built-in prompt presets offered before any are configured.
pub fn get_initial_prompts() -> (r: Vec<Prompt>)
    ensures
        r@.len() == 3,
        r@[0].title@ == "Generate a title"@,
        r@[0].prompt@
            == "Here's a Markdown memo. Could you generate a better title for it? Output should be Japanese.Don't quote result."@,
        r@[1].title@ == "Write the continuation"@,
        r@[1].prompt@
            == "Here's a Markdown memo. Could you write the continuation of it? Output should be in Japanese."@,
        r@[2].title@ == "Complete it"@,
        r@[2].prompt@
            == "Here's a Markdown memo. Could you complete it? Output should be in Japanese."@,
{
    let mut r: Vec<Prompt> = Vec::new();
    r.push(
        Prompt {
            title: String::from_str("Generate a title"),
            prompt: String::from_str(
                "Here's a Markdown memo. Could you generate a better title for it? Output should be Japanese.Don't quote result.",
            ),
        },
    );
    r.push(
        Prompt {
            title: String::from_str("Write the continuation"),
            prompt: String::from_str(
                "Here's a Markdown memo. Could you write the continuation of it? Output should be in Japanese.",
            ),
        },
    );
    r.push(
        Prompt {
            title: String::from_str("Complete it"),
            prompt: String::from_str(
                "Here's a Markdown memo. Could you complete it? Output should be in Japanese.",
            ),
        },
    );
    r
}

/// The progress a streamed completion has reached under a request id:
/// first-match lookup over the cache's entries.
pub open spec fn cache_lookup(entries: Seq<(String, String)>, id: Seq<char>) -> Option<Seq<char>>
    decreases entries.len(),
{
    if entries.len() == 0 {
        None
    } else if entries[0].0@ == id {
        Some(entries[0].1@)
    } else {
        cache_lookup(entries.skip(1), id)
    }
}

proof fn lemma_cache_lookup_at(entries: Seq<(String, String)>, id: Seq<char>, i: int)
    requires
        0 <= i <= entries.len(),
        forall|k: int| 0 <= k < i ==> (#[trigger] entries[k]).0@ != id,
        i == entries.len() || entries[i].0@ == id,
    ensures
        cache_lookup(entries, id) == (if i == entries.len() {
            Option::<Seq<char>>::None
        } else {
            Option::Some(entries[i].1@)
        }),
    decreases i,
{
    if i == 0 {
    } else {
        let t = entries.skip(1);
        assert(forall|k: int| 0 <= k < i - 1 ==> t[k] == entries[k + 1]);
        if i - 1 < t.len() {
            assert(t[i - 1] == entries[i]);
        }
        lemma_cache_lookup_at(t, id, i - 1);
    }
}

proof fn lemma_cache_lookup_same(
    e1: Seq<(String, String)>,
    e2: Seq<(String, String)>,
    id: Seq<char>,
)
    requires
        e1.len() == e2.len(),
        forall|k: int| 0 <= k < e1.len() ==> (#[trigger] e1[k]).0@ == e2[k].0@,
        forall|k: int| 0 <= k < e1.len() ==> ((#[trigger] e1[k]).0@ == id ==> e1[k].1@ == e2[k].1@),
    ensures
        cache_lookup(e1, id) == cache_lookup(e2, id),
    decreases e1.len(),
{
    if e1.len() > 0 {
        if e1[0].0@ == id {
        } else {
            let t1 = e1.skip(1);
            let t2 = e2.skip(1);
            assert(forall|k: int| 0 <= k < t1.len() ==> (#[trigger] t1[k]) == e1[k + 1]);
            assert(forall|k: int| 0 <= k < t2.len() ==> (#[trigger] t2[k]) == e2[k + 1]);
            lemma_cache_lookup_same(t1, t2, id);
        }
    }
}

proof fn lemma_cache_lookup_push(e: Seq<(String, String)>, x: (String, String), id: Seq<char>)
    requires
        x.0@ != id,
    ensures
        cache_lookup(e.push(x), id) == cache_lookup(e, id),
    decreases e.len(),
{
    let f = e.push(x);
    if e.len() == 0 {
        assert(f[0] == x);
        assert(f.skip(1) =~= Seq::<(String, String)>::empty());
        assert(cache_lookup(f, id) == cache_lookup(f.skip(1), id));
        assert(cache_lookup(f.skip(1), id) is None);
    } else {
        assert(f[0] == e[0]);
        if e[0].0@ != id {
            assert(f.skip(1) =~= e.skip(1).push(x));
            lemma_cache_lookup_push(e.skip(1), x, id);
            assert(cache_lookup(f, id) == cache_lookup(f.skip(1), id));
            assert(cache_lookup(e, id) == cache_lookup(e.skip(1), id));
        }
    }
}

/// The progress of streamed completions, keyed by request id. The host owns
/// one cache explicitly and passes it to writers and readers; there is no
/// ambient shared state in the library.
pub struct ProgressCache {
    pub entries: Vec<(String, String)>,
}

impl ProgressCache {
    /// An empty cache, created when the host starts serving requests.
    pub fn new() -> (c: ProgressCache)
        ensures
            c.entries@.len() == 0,
    {
        ProgressCache { entries: Vec::new() }
    }

    /// Records the text a streamed completion has produced so far for the
    /// request `uuid`, replacing what was recorded before; progress under
    /// every other request id is untouched.
    pub fn set_progress(&mut self, uuid: String, text: String)
        ensures
            cache_lookup(final(self).entries@, uuid@) == Some(text@),
            forall|other: Seq<char>|
                other != uuid@ ==> #[trigger] cache_lookup(final(self).entries@, other)
                    == cache_lookup(old(self).entries@, other),
    {
        let ghost orig = self.entries@;
        let n = self.entries.len();
        let mut i: usize = 0;
        while i < n && !(self.entries[i].0 == uuid)
            invariant
                0 <= i <= n,
                n == self.entries@.len(),
                self.entries@ == orig,
                forall|k: int| 0 <= k < i ==> (#[trigger] orig[k]).0@ != uuid@,
            decreases n - i,
        {
            i = i + 1;
        }
        if i < n {
            self.entries.remove(i);
            self.entries.insert(i, (uuid, text));
            proof {
                let fin = self.entries@;
                assert(fin =~= orig.update(i as int, fin[i as int]));
                assert(fin[i as int].0@ == uuid@);
                lemma_cache_lookup_at(fin, uuid@, i as int);
                assert forall|other: Seq<char>| other != uuid@ implies #[trigger] cache_lookup(
                    fin,
                    other,
                ) == cache_lookup(orig, other) by {
                    lemma_cache_lookup_same(fin, orig, other);
                }
            }
        } else {
            self.entries.push((uuid, text));
            proof {
                let fin = self.entries@;
                assert(fin[n as int].0@ == uuid@);
                lemma_cache_lookup_at(fin, uuid@, n as int);
                assert forall|other: Seq<char>| other != uuid@ implies #[trigger] cache_lookup(
                    fin,
                    other,
                ) == cache_lookup(orig, other) by {
                    lemma_cache_lookup_push(orig, fin[n as int], other);
                }
            }
        }
    }
}

/// Reads the progress a streamed completion has reached under `uuid`, if a
/// completion with that request id has reported any.
pub fn get_openai_progress(cache: &ProgressCache, uuid: String) -> (r: Option<String>)
    ensures
        match r {
            Some(s) => cache_lookup(cache.entries@, uuid@) == Some(s@),
            None => cache_lookup(cache.entries@, uuid@) is None,
        },
{
    let n = cache.entries.len();
    let mut i: usize = 0;
    while i < n && !(cache.entries[i].0 == uuid)
        invariant
            0 <= i <= n,
            n == cache.entries@.len(),
            forall|k: int| 0 <= k < i ==> (#[trigger] cache.entries@[k]).0@ != uuid@,
        decreases n - i,
    {
        i = i + 1;
    }
    proof {
        lemma_cache_lookup_at(cache.entries@, uuid@, i as int);
    }
    if i < n {
        Some(cache.entries[i].1.clone())
    } else {
        None
    }
}

} // verus!
