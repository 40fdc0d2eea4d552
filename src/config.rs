//! Project configuration and small helpers around it.
use crate::error::ErrorKind;
use vstd::prelude::*;
use vstd::string::StrSliceExecFns;

verus! {

pub const PROJECT_CONFIG_VERSION: u8 = 1;

/// The service this client talks to by default.
pub const AUTH_SERVER_URL: &'static str = "https://envoy-server.fly.dev";

/// What marks an input as a GitHub URL rather than a bare user name.
pub const GITHUB_HOST: &'static str = "github.com";

/// The project configuration, as read from `.envoy/config.toml`.
pub struct ProjectConfig {
    pub project_id: String,
    pub version: u8,
    pub name: Option<String>,
    /// Remote names and their URLs.
    pub remotes: Vec<(String, String)>,
    pub default_remote: String,
}

pub open spec fn pairs_of(v: Seq<(String, String)>) -> Seq<(Seq<char>, Seq<char>)> {
    v.map_values(|e: (String, String)| (e.0@, e.1@))
}

/// The URL of remote `name`: the first entry with that name.
pub open spec fn remote_url_of(remotes: Seq<(Seq<char>, Seq<char>)>, name: Seq<char>) -> Option<Seq<char>>
    decreases remotes.len(),
{
    if remotes.len() == 0 {
        None
    } else if remotes[0].0 == name {
        Some(remotes[0].1)
    } else {
        remote_url_of(remotes.drop_first(), name)
    }
}

/// The base URL of the authentication and storage service.
pub fn auth_server_url() -> (r: String)
    ensures
        r@ == AUTH_SERVER_URL@,
{
    AUTH_SERVER_URL.to_owned()
}

fn find_remote(remotes: &Vec<(String, String)>, name: &String) -> (r: Option<String>)
    ensures
        match remote_url_of(pairs_of(remotes@), name@) {
            None => r is None,
            Some(u) => r matches Some(s) && s@ == u,
        },
{
    let ghost all = pairs_of(remotes@);
    let mut i: usize = 0;
    assert(all.subrange(0, all.len() as int) =~= all);
    while i < remotes.len()
        invariant
            i <= remotes@.len(),
            all == pairs_of(remotes@),
            remote_url_of(all, name@) == remote_url_of(all.subrange(i as int, all.len() as int), name@),
        decreases remotes@.len() - i,
    {
        let ghost t = all.subrange(i as int, all.len() as int);
        proof {
            assert(t[0] == (remotes@[i as int].0@, remotes@[i as int].1@));
            assert(t.drop_first() =~= all.subrange(i + 1, all.len() as int));
        }
        if remotes[i].0 == *name {
            return Some(remotes[i].1.clone());
        }
        i = i + 1;
    }
    None
}

/// The URL of the remote called `name`, or of the default remote when no
/// name is given.
pub fn get_remote_url(config: &ProjectConfig, name: Option<&String>) -> (r: Result<String, ErrorKind>)
    ensures
        ({
            let wanted = match name {
                Some(n) => n@,
                None => config.default_remote@,
            };
            match remote_url_of(pairs_of(config.remotes@), wanted) {
                None => r == Err::<String, ErrorKind>(ErrorKind::ConfigError),
                Some(u) => r matches Ok(s) && s@ == u,
            }
        }),
{
    let wanted = match name {
        Some(n) => n,
        None => &config.default_remote,
    };
    match find_remote(&config.remotes, wanted) {
        Some(u) => Ok(u),
        None => Err(ErrorKind::ConfigError),
    }
}

/// Checks a configuration as read: its version must be the current one and
/// its default remote must be defined.
pub fn validate_project_config(config: &ProjectConfig) -> (r: Result<(), ErrorKind>)
    ensures
        r is Ok <==> (config.version == PROJECT_CONFIG_VERSION && remote_url_of(
            pairs_of(config.remotes@),
            config.default_remote@,
        ) is Some),
        r is Err ==> r == Err::<(), ErrorKind>(ErrorKind::ConfigError),
{
    if config.version != PROJECT_CONFIG_VERSION {
        return Err(ErrorKind::ConfigError);
    }
    match find_remote(&config.remotes, &config.default_remote) {
        Some(_) => Ok(()),
        None => Err(ErrorKind::ConfigError),
    }
}

/// Unicode white space, as `char::is_whitespace` counts it.
pub open spec fn is_space(c: char) -> bool {
    c == ' ' || c == '\t' || c == '\n' || c == '\u{0B}' || c == '\u{0C}' || c == '\r'
        || c == '\u{85}' || c == '\u{A0}' || c == '\u{1680}' || ('\u{2000}' <= c && c <= '\u{200A}')
        || c == '\u{2028}' || c == '\u{2029}' || c == '\u{202F}' || c == '\u{205F}' || c == '\u{3000}'
}

fn space(c: char) -> (r: bool)
    ensures
        r == is_space(c),
{
    c == ' ' || c == '\t' || c == '\n' || c == '\u{0B}' || c == '\u{0C}' || c == '\r'
        || c == '\u{85}' || c == '\u{A0}' || c == '\u{1680}' || ('\u{2000}' <= c && c <= '\u{200A}')
        || c == '\u{2028}' || c == '\u{2029}' || c == '\u{202F}' || c == '\u{205F}' || c == '\u{3000}'
}

/// How many white-space characters `s` starts with.
pub open spec fn leading_space(s: Seq<char>) -> nat
    decreases s.len(),
{
    if s.len() > 0 && is_space(s[0]) {
        1 + leading_space(s.drop_first())
    } else {
        0
    }
}

/// How many white-space characters `s` ends with.
pub open spec fn trailing_space(s: Seq<char>) -> nat
    decreases s.len(),
{
    if s.len() > 0 && is_space(s.last()) {
        1 + trailing_space(s.drop_last())
    } else {
        0
    }
}

/// `s` without white space at either end.
pub open spec fn trimmed(s: Seq<char>) -> Seq<char> {
    let a = s.subrange(leading_space(s) as int, s.len() as int);
    a.subrange(0, a.len() - trailing_space(a))
}

/// `s` without the slashes it ends with.
pub open spec fn without_trailing_slashes(s: Seq<char>) -> Seq<char>
    decreases s.len(),
{
    if s.len() > 0 && s.last() == '/' {
        without_trailing_slashes(s.drop_last())
    } else {
        s
    }
}

/// What follows the last slash of `s` (all of `s` when it has none).
pub open spec fn after_last_slash(s: Seq<char>) -> Seq<char>
    decreases s.len(),
{
    if s.len() == 0 {
        s
    } else if s.last() == '/' {
        Seq::empty()
    } else {
        after_last_slash(s.drop_last()).push(s.last())
    }
}

pub open spec fn has_infix(s: Seq<char>, pat: Seq<char>) -> bool {
    exists|i: int| 0 <= i && i + pat.len() <= s.len() && #[trigger] s.subrange(i, i + pat.len()) == pat
}

/// A GitHub user name from what was typed: the input without surrounding
/// white space, or, when it mentions `github.com`, the last path segment of
/// that URL.
pub open spec fn github_username_of(input: Seq<char>) -> Seq<char> {
    let t = trimmed(input);
    if has_infix(t, GITHUB_HOST@) {
        after_last_slash(without_trailing_slashes(t))
    } else {
        t
    }
}

fn trim_chars(s: &str) -> (r: String)
    ensures
        r@ == trimmed(s@),
{
    let n = s.unicode_len();
    let mut i: usize = 0;
    assert(s@.subrange(0, n as int) =~= s@);
    while i < n && space(s.get_char(i))
        invariant
            i <= n,
            n == s@.len(),
            leading_space(s@) == i + leading_space(s@.subrange(i as int, n as int)),
        decreases n - i,
    {
        proof {
            assert(s@.subrange(i as int, n as int).drop_first() =~= s@.subrange(i + 1, n as int));
        }
        i = i + 1;
    }
    proof {
        if i < n {
            assert(s@.subrange(i as int, n as int)[0] == s@[i as int]);
        }
        assert(leading_space(s@.subrange(i as int, n as int)) == 0);
    }
    let ghost a = s@.subrange(i as int, n as int);
    let mut j: usize = n;
    assert(a.subrange(0, a.len() as int) =~= a);
    while j > i && space(s.get_char(j - 1))
        invariant
            i <= j <= n,
            n == s@.len(),
            a == s@.subrange(i as int, n as int),
            trailing_space(a) == (n - j) + trailing_space(s@.subrange(i as int, j as int)),
        decreases j - i,
    {
        proof {
            assert(s@.subrange(i as int, j as int).drop_last() =~= s@.subrange(i as int, j - 1));
        }
        j = j - 1;
    }
    proof {
        if j > i {
            assert(s@.subrange(i as int, j as int).last() == s@[j - 1]);
        }
        assert(trailing_space(s@.subrange(i as int, j as int)) == 0);
        assert(a.subrange(0, a.len() - trailing_space(a)) =~= s@.subrange(i as int, j as int));
    }
    s.substring_char(i, j).to_owned()
}

fn has_github(t: &str) -> (r: bool)
    ensures
        r == has_infix(t@, GITHUB_HOST@),
{
    let pat = GITHUB_HOST;
    let n = t.unicode_len();
    let m = pat.unicode_len();
    if m > n {
        proof {
            assert(!has_infix(t@, pat@));
        }
        return false;
    }
    let mut i: usize = 0;
    while i <= n - m
        invariant
            pat@ == GITHUB_HOST@,
            n == t@.len(),
            m == pat@.len(),
            m <= n,
            i <= n - m + 1,
            forall|k: int| 0 <= k < i ==> #[trigger] t@.subrange(k, k + m) != pat@,
        decreases n + 1 - i,
    {
        let mut j: usize = 0;
        let mut same = true;
        while j < m
            invariant
                n == t@.len(),
                m == pat@.len(),
                i + m <= n,
                j <= m,
                same == (forall|k: int| 0 <= k < j ==> t@[i + k] == pat@[k]),
            decreases m - j,
        {
            if t.get_char(i + j) != pat.get_char(j) {
                same = false;
            }
            j = j + 1;
        }
        if same {
            proof {
                assert(t@.subrange(i as int, i + m) =~= pat@);
                assert(t@.subrange(i as int, i as int + pat@.len()) == pat@);
                assert(has_infix(t@, pat@));
            }
            return true;
        }
        proof {
            let k = choose|k: int| 0 <= k < m && t@[i + k] != pat@[k];
            assert(t@.subrange(i as int, i + m)[k] != pat@[k]);
        }
        i = i + 1;
    }
    proof {
        assert forall|k: int| 0 <= k && k + m <= n implies #[trigger] t@.subrange(k, k + m) != pat@ by {
            assert(k < i);
        }
    }
    false
}

/// Reads a GitHub user name from a bare name or a profile URL.
pub fn parse_github_username(input: &str) -> (r: Result<String, ErrorKind>)
    ensures
        r matches Ok(u) && u@ == github_username_of(input@),
{
    let t = trim_chars(input);
    if !has_github(t.as_str()) {
        return Ok(t);
    }
    let n = t.as_str().unicode_len();
    let mut k: usize = n;
    assert(t@.subrange(0, n as int) =~= t@);
    while k > 0 && t.as_str().get_char(k - 1) == '/'
        invariant
            k <= n,
            n == t@.len(),
            without_trailing_slashes(t@) == without_trailing_slashes(t@.subrange(0, k as int)),
        decreases k,
    {
        proof {
            assert(t@.subrange(0, k as int).drop_last() =~= t@.subrange(0, k - 1));
        }
        k = k - 1;
    }
    let ghost u = t@.subrange(0, k as int);
    proof {
        if k > 0 {
            assert(u.last() == t@[k - 1]);
        }
        assert(without_trailing_slashes(t@) == u);
    }
    let mut m: usize = k;
    assert(u.subrange(m as int, k as int) =~= Seq::<char>::empty());
    while m > 0 && t.as_str().get_char(m - 1) != '/'
        invariant
            m <= k <= n,
            n == t@.len(),
            u == t@.subrange(0, k as int),
            after_last_slash(u) == after_last_slash(t@.subrange(0, m as int)) + t@.subrange(m as int, k as int),
        decreases m,
    {
        proof {
            let v = t@.subrange(0, m as int);
            assert(v.drop_last() =~= t@.subrange(0, m - 1));
            assert(v.last() == t@[m - 1]);
            assert(after_last_slash(v) == after_last_slash(v.drop_last()).push(t@[m - 1]));
            assert(after_last_slash(v.drop_last()).push(t@[m - 1]) + t@.subrange(m as int, k as int)
                =~= after_last_slash(v.drop_last()) + t@.subrange(m - 1, k as int));
        }
        m = m - 1;
    }
    proof {
        let v = t@.subrange(0, m as int);
        if m > 0 {
            assert(v.last() == t@[m - 1]);
        }
        assert(after_last_slash(v) =~= Seq::<char>::empty());
        assert(after_last_slash(u) =~= t@.subrange(m as int, k as int));
    }
    Ok(t.as_str().substring_char(m, k).to_owned())
}

} // verus!
