use vstd::prelude::*;

verus! {

/// Whether `url::Url::parse` accepts `s` as an absolute URL.
pub uninterp spec fn url_parses(s: Seq<char>) -> bool;

/// The normalized serialization that `url::Url` stores for the URL written `s`.
pub uninterp spec fn url_normalized(s: Seq<char>) -> Seq<char>;

/// The percent-encoded path part of the URL written `s`.
pub uninterp spec fn url_path(s: Seq<char>) -> Seq<char>;

/// One accepted URL: its normalized serialization and its path part, both as
/// the `url` crate renders them.
pub struct UrlEntry {
    pub url: String,
    pub path: String,
}

impl DeepView for UrlEntry {
    type V = (Seq<char>, Seq<char>);

    open spec fn deep_view(&self) -> Self::V {
        (self.url@, self.path@)
    }
}

/// Whether some accumulated entry already carries the normalized URL `u`.
pub open spec fn has_url(entries: Seq<(Seq<char>, Seq<char>)>, u: Seq<char>) -> bool {
    exists|i: int| 0 <= i < entries.len() && entries[i].0 == u
}

/// The entries the loader accumulates from `lines`: one per line that parses,
/// keyed and deduplicated by normalized URL, kept in order of first occurrence.
pub open spec fn loaded_entries(lines: Seq<Seq<char>>) -> Seq<(Seq<char>, Seq<char>)>
    decreases lines.len(),
{
    if lines.len() == 0 {
        Seq::empty()
    } else {
        let prev = loaded_entries(lines.drop_last());
        let l = lines.last();
        if url_parses(l) && !has_url(prev, url_normalized(l)) {
            prev.push((url_normalized(l), url_path(l)))
        } else {
            prev
        }
    }
}

/// The lines the loader skips: exactly those that do not parse, in order.
pub open spec fn skipped_lines(lines: Seq<Seq<char>>) -> Seq<Seq<char>>
    decreases lines.len(),
{
    if lines.len() == 0 {
        Seq::empty()
    } else {
        let prev = skipped_lines(lines.drop_last());
        if url_parses(lines.last()) {
            prev
        } else {
            prev.push(lines.last())
        }
    }
}

/// Relies on `reqwest::Url::parse` (a re-export of `url::Url::parse`), which
/// returns `Ok` exactly on strings it can read as an absolute URL, and on
/// `Url::as_str` and `Url::path`, which return the stored normalized
/// serialization and the percent-encoded path part; all three are functions of
/// the input string alone.
#[verifier::external_body]
fn parse_url_line(line: &str) -> (r: Option<(String, String)>)
    ensures
        r is Some <==> url_parses(line@),
        r matches Some(p) ==> p.0@ == url_normalized(line@) && p.1@ == url_path(line@),
{
    match reqwest::Url::parse(line) {
        Ok(u) => {
            let path = String::from(u.path());
            Some((String::from(u.as_str()), path))
        },
        Err(_) => None,
    }
}

/// Whether `entries` already holds an entry whose normalized URL equals `u`.
fn contains_url(entries: &Vec<UrlEntry>, u: &String) -> (r: bool)
    ensures
        r == has_url(entries.deep_view(), u@),
{
    let ghost dv = entries.deep_view();
    let n = entries.len();
    assert(dv.len() == n);
    let mut i: usize = 0;
    while i < n
        invariant
            i <= n,
            n == dv.len(),
            dv == entries.deep_view(),
            forall|m: int| 0 <= m < entries@.len() ==> dv[m] == entries@[m].deep_view(),
            forall|m: int| 0 <= m < i ==> dv[m].0 != u@,
        decreases n - i,
    {
        if entries[i].url.eq(u) {
            assert(dv[i as int].0 == u@);
            return true;
        }
        i += 1;
    }
    false
}

/// Loads URLs from the input lines: parses every line, keeps each accepted URL
/// once (deduplicated by normalized form, first occurrence kept, in order), and
/// returns separately the lines that did not parse, each exactly once and in order.
pub fn load_urls(lines: &Vec<String>) -> (r: (Vec<UrlEntry>, Vec<String>))
    ensures
        r.0.deep_view() == loaded_entries(lines.deep_view()),
        r.1.deep_view() == skipped_lines(lines.deep_view()),
{
    let ghost lv = lines.deep_view();
    let mut entries: Vec<UrlEntry> = Vec::new();
    let mut skipped: Vec<String> = Vec::new();
    let n = lines.len();
    assert(lv.len() == n);
    let mut i: usize = 0;
    while i < n
        invariant
            i <= n,
            n == lv.len(),
            lv == lines.deep_view(),
            forall|m: int| 0 <= m < lines@.len() ==> lv[m] == lines@[m]@,
            entries.deep_view() == loaded_entries(lv.take(i as int)),
            skipped.deep_view() == skipped_lines(lv.take(i as int)),
        decreases n - i,
    {
        let line = &lines[i];
        match parse_url_line(line.as_str()) {
            Some(p) => {
                let (url, path) = p;
                if !contains_url(&entries, &url) {
                    entries.push(UrlEntry { url, path });
                }
            },
            None => {
                skipped.push(line.clone());
            },
        }
        proof {
            assert(lv.take(i as int + 1).drop_last() =~= lv.take(i as int));
            assert(lv.take(i as int + 1).last() == lv[i as int]);
            assert(entries.deep_view() =~= loaded_entries(lv.take(i as int + 1)));
            assert(skipped.deep_view() =~= skipped_lines(lv.take(i as int + 1)));
        }
        i += 1;
    }
    proof {
        assert(lv.take(n as int) =~= lv);
    }
    (entries, skipped)
}

/// The loader skips exactly the malformed lines: what it returns as skipped is
/// the subsequence of lines that do not parse, so each such line gives exactly
/// one warning.
pub proof fn lemma_skipped_is_malformed(lines: Seq<Seq<char>>)
    ensures
        skipped_lines(lines) == lines.filter(|l: Seq<char>| !url_parses(l)),
    decreases lines.len(),
{
    reveal(Seq::filter);
    if lines.len() > 0 {
        lemma_skipped_is_malformed(lines.drop_last());
    }
}

/// No two loaded entries carry the same normalized URL: the loader returns a set.
pub proof fn lemma_loaded_entries_distinct(lines: Seq<Seq<char>>)
    ensures
        forall|i: int, j: int|
            0 <= i < j < loaded_entries(lines).len() ==> loaded_entries(lines)[i].0
                != loaded_entries(lines)[j].0,
    decreases lines.len(),
{
    if lines.len() > 0 {
        lemma_loaded_entries_distinct(lines.drop_last());
        let prev = loaded_entries(lines.drop_last());
        let l = lines.last();
        let cur = loaded_entries(lines);
        if url_parses(l) && !has_url(prev, url_normalized(l)) {
            assert forall|i: int, j: int|
                0 <= i < j < cur.len() implies cur[i].0 != cur[j].0 by {
                if j == prev.len() {
                    assert(!(0 <= i < prev.len() && prev[i].0 == url_normalized(l)));
                }
            }
        }
    }
}

/// The loaded entries are exactly the set of accepted URLs: every line that
/// parses has its normalized URL among the entries, and every entry is the
/// normalized URL and path of some line that parses.
pub proof fn lemma_loaded_entries_complete(lines: Seq<Seq<char>>)
    ensures
        forall|i: int|
            0 <= i < lines.len() && url_parses(lines[i]) ==> has_url(
                loaded_entries(lines),
                url_normalized(#[trigger] lines[i]),
            ),
        forall|k: int|
            0 <= k < loaded_entries(lines).len() ==> exists|i: int|
                0 <= i < lines.len() && url_parses(lines[i]) && #[trigger] loaded_entries(
                    lines,
                )[k] == (url_normalized(lines[i]), url_path(lines[i])),
    decreases lines.len(),
{
    if lines.len() > 0 {
        lemma_loaded_entries_complete(lines.drop_last());
        let prev = loaded_entries(lines.drop_last());
        let cur = loaded_entries(lines);
        let l = lines.last();
        assert(forall|m: int| 0 <= m < lines.len() - 1 ==> lines.drop_last()[m] == lines[m]);
        assert forall|i: int|
            0 <= i < lines.len() && url_parses(lines[i]) implies has_url(
            cur,
            url_normalized(lines[i]),
        ) by {
            if i < lines.len() - 1 {
                let w = choose|w: int|
                    0 <= w < prev.len() && prev[w].0 == url_normalized(lines[i]);
                assert(cur[w].0 == url_normalized(lines[i]));
            } else {
                if url_parses(l) && !has_url(prev, url_normalized(l)) {
                    assert(cur[cur.len() - 1].0 == url_normalized(l));
                } else {
                    let w = choose|w: int| 0 <= w < prev.len() && prev[w].0 == url_normalized(l);
                    assert(cur[w].0 == url_normalized(l));
                }
            }
        }
        assert forall|k: int| 0 <= k < cur.len() implies exists|i: int|
            0 <= i < lines.len() && url_parses(lines[i]) && #[trigger] cur[k] == (
            url_normalized(lines[i]),
            url_path(lines[i]),
        ) by {
            if k < prev.len() {
                let i = choose|i: int|
                    0 <= i < lines.len() - 1 && url_parses(lines.drop_last()[i])
                        && #[trigger] prev[k] == (
                    url_normalized(lines.drop_last()[i]),
                    url_path(lines.drop_last()[i]),
                );
                assert(cur[k] == (url_normalized(lines[i]), url_path(lines[i])));
                assert(url_parses(lines[i]));
            } else {
                assert(cur[k] == (url_normalized(l), url_path(l)));
                assert(lines[lines.len() - 1] == l);
            }
        }
    }
}

/// The loader keeps at most one entry per well-formed line: entries plus
/// skipped lines never outnumber the input lines, so with `m` well-formed
/// lines the set of URLs has size at most `m`.
pub proof fn lemma_loader_counts(lines: Seq<Seq<char>>)
    ensures
        loaded_entries(lines).len() + skipped_lines(lines).len() <= lines.len(),
    decreases lines.len(),
{
    if lines.len() > 0 {
        lemma_loader_counts(lines.drop_last());
    }
}

} // verus!
