use vstd::prelude::*;
use vstd::string::StrSliceExecFns;

use crate::error::ConfigError;
use crate::strutil::push_char;

verus! {

/// The two storage providers a configuration string can select.
#[derive(Clone, Copy, Debug, PartialEq, Eq, Structural)]
pub enum Provider {
    /// The flat-file document backend.
    Json,
    /// The embedded relational-database backend.
    Sqlite,
}

/// The literal token that selects each provider.
pub open spec fn provider_token(p: Provider) -> Seq<char> {
    match p {
        Provider::Json => seq!['J', 'S', 'O', 'N'],
        Provider::Sqlite => seq!['S', 'Q', 'L', 'I', 'T', 'E'],
    }
}

/// `i` is the position of the one and only separator in `v`.
pub open spec fn is_colon_split(v: Seq<char>, i: int) -> bool {
    &&& 0 <= i < v.len()
    &&& v[i] == ':'
    &&& forall|j: int| 0 <= j < v.len() && j != i ==> v[j] != ':'
}

/// A well-formed configuration: one separator, a known provider token before
/// it; the remainder is the backend path.
pub open spec fn config_selects(v: Seq<char>, p: Provider, path: Seq<char>) -> bool {
    exists|i: int|
        is_colon_split(v, i) && v.subrange(0, i) == provider_token(p) && path == v.subrange(
            i + 1,
            v.len() as int,
        )
}

/// Parse a `PROVIDER:PATH` configuration string: exactly one separator is
/// required, and the provider token must match one of the two known backends
/// exactly, else the configuration is rejected as a fatal error.
pub fn parse_config(s: &str) -> (r: Result<(Provider, String), ConfigError>)
    ensures
        r matches Ok(pr) ==> config_selects(s@, pr.0, pr.1@),
        r == Err::<(Provider, String), ConfigError>(ConfigError::Malformed) <==> (forall|i: int|
            !is_colon_split(s@, i)),
        r matches Err(e) && e == ConfigError::UnknownProvider ==> (exists|i: int|
            is_colon_split(s@, i)) && (forall|p: Provider, path: Seq<char>|
            !config_selects(s@, p, path)),
{
    let n = s.unicode_len();
    let mut i: usize = 0;
    let mut colon: Option<usize> = None;
    while i < n
        invariant
            n == s@.len(),
            i <= n,
            colon matches Some(c) ==> c < i && s@[c as int] == ':' && forall|j: int|
                0 <= j < i && j != c ==> s@[j] != ':',
            colon is None ==> forall|j: int| 0 <= j < i ==> s@[j] != ':',
        decreases n - i,
    {
        if s.get_char(i) == ':' {
            match colon {
                None => {
                    colon = Some(i);
                },
                Some(_) => {
                    // A second separator: reject.
                    return Err(ConfigError::Malformed);
                },
            }
        }
        i = i + 1;
    }
    let c = match colon {
        Some(c) => c,
        None => {
            return Err(ConfigError::Malformed);
        },
    };
    assert(is_colon_split(s@, c as int));
    assert forall|j: int| j != c as int implies !is_colon_split(s@, j) by {
        if 0 <= j < s@.len() && j != c as int {
            assert(s@[j] != ':');
        }
    }
    let provider: Provider;
    if c == 4 && s.get_char(0) == 'J' && s.get_char(1) == 'S' && s.get_char(2) == 'O'
        && s.get_char(3) == 'N' {
        provider = Provider::Json;
        assert(s@.subrange(0, 4) =~= provider_token(Provider::Json));
    } else if c == 6 && s.get_char(0) == 'S' && s.get_char(1) == 'Q' && s.get_char(2) == 'L'
        && s.get_char(3) == 'I' && s.get_char(4) == 'T' && s.get_char(5) == 'E' {
        provider = Provider::Sqlite;
        assert(s@.subrange(0, 6) =~= provider_token(Provider::Sqlite));
    } else {
        proof {
            assert forall|p: Provider, path: Seq<char>| !config_selects(s@, p, path) by {
                if config_selects(s@, p, path) {
                    let k = choose|k: int|
                        is_colon_split(s@, k) && s@.subrange(0, k) == provider_token(p) && path
                            == s@.subrange(k + 1, s@.len() as int);
                    assert(k == c as int);
                    match p {
                        Provider::Json => {
                            assert(s@.subrange(0, k).len() == 4);
                            assert(s@[0] == s@.subrange(0, k)[0]);
                            assert(s@[1] == s@.subrange(0, k)[1]);
                            assert(s@[2] == s@.subrange(0, k)[2]);
                            assert(s@[3] == s@.subrange(0, k)[3]);
                        },
                        Provider::Sqlite => {
                            assert(s@.subrange(0, k).len() == 6);
                            assert(s@[0] == s@.subrange(0, k)[0]);
                            assert(s@[1] == s@.subrange(0, k)[1]);
                            assert(s@[2] == s@.subrange(0, k)[2]);
                            assert(s@[3] == s@.subrange(0, k)[3]);
                            assert(s@[4] == s@.subrange(0, k)[4]);
                            assert(s@[5] == s@.subrange(0, k)[5]);
                        },
                    }
                }
            }
        }
        return Err(ConfigError::UnknownProvider);
    }
    let mut path = String::new();
    let mut j: usize = c + 1;
    while j < n
        invariant
            n == s@.len(),
            c < n,
            c + 1 <= j <= n,
            path@ == s@.subrange(c + 1, j as int),
        decreases n - j,
    {
        push_char(&mut path, s.get_char(j));
        proof {
            assert(path@ =~= s@.subrange(c + 1, j + 1));
        }
        j = j + 1;
    }
    proof {
        assert(is_colon_split(s@, c as int) && s@.subrange(0, c as int) == provider_token(provider)
            && path@ == s@.subrange(c as int + 1, s@.len() as int));
        assert(config_selects(s@, provider, path@));
    }
    Ok((provider, path))
}

} // verus!
