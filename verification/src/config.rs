//! Persisted configuration: the download directory and thread count, kept
//! under the platform's per-user configuration directory.

use vstd::prelude::*;

verus! {

/// The configuration record: where downloads go and how many fetch tasks
/// a transfer may use.
#[derive(Debug, Clone)]
pub struct FurlConfig {
    pub download_dir: String,
    pub threads: u8,
}

/// Per-download bookkeeping records; none are persisted yet.
pub struct DownloadMetadata {}

impl Default for FurlConfig {
    /// The in-memory fallback configuration: current directory, eight tasks.
    fn default() -> (c: Self)
        ensures
            c.download_dir@ == "."@,
            c.threads == 8,
    {
        FurlConfig { download_dir: String::from_str("."), threads: 8 }
    }
}

/// `s` ends with `suffix`.
pub open spec fn ends_with(s: Seq<char>, suffix: Seq<char>) -> bool {
    &&& s.len() >= suffix.len()
    &&& s.subrange(s.len() - suffix.len(), s.len() as int) == suffix
}

/// The application's directory name under the OS configuration directory.
pub open spec fn app_dir_name() -> Seq<char> {
    seq!['/', 'f', 'u', 'r', 'l', '-', 'c', 'l', 'i']
}

proof fn lemma_ends_with_append(s: Seq<char>, x: Seq<char>, y: Seq<char>)
    requires
        ends_with(s, x),
    ensures
        ends_with(s + y, x + y),
{
    assert((s + y).subrange((s + y).len() - (x + y).len(), (s + y).len() as int) =~= x + y);
}

/// Relies on dirs::config_dir: the platform's per-user configuration
/// directory, when the platform defines one; the result depends on the
/// environment, so nothing is assumed of it.
#[verifier::external_body]
fn os_config_dir() -> (r: Option<String>) {
    match dirs::config_dir() {
        Some(p) => match p.to_str() {
            Some(s) => Some(s.to_string()),
            None => None,
        },
        None => None,
    }
}

/// The application's configuration directory under a given base directory.
pub fn config_dir_under(base: &str) -> (r: String)
    ensures
        r@ == base@ + app_dir_name(),
{
    let mut d = String::from_str(base);
    d.append("/furl-cli");
    proof {
        reveal_strlit("/furl-cli");
        assert(base@ + "/furl-cli"@ =~= base@ + app_dir_name());
    }
    d
}

impl FurlConfig {
    /// The configuration directory for this application, placed under the
    /// OS configuration directory; nothing on platforms without one.
    pub fn get_config_dir(&self) -> (r: Option<String>)
        ensures
            r matches Some(d) ==> ends_with(d@, app_dir_name()),
    {
        match os_config_dir() {
            Option::Some(base) => {
                let d = config_dir_under(base.as_str());
                proof {
                    assert(d@.subrange(d@.len() - 9, d@.len() as int) =~= app_dir_name());
                }
                Option::Some(d)
            },
            Option::None => Option::None,
        }
    }

    /// The path of the download bookkeeping file inside the configuration
    /// directory.
    pub fn get_db_path(&self) -> (r: Option<String>)
        ensures
            r matches Some(p) ==> ends_with(
                p@,
                app_dir_name() + seq!['/', 'd', 'b', '.', 'j', 's', 'o', 'n'],
            ),
    {
        match self.get_config_dir() {
            Option::Some(d) => {
                let ghost d0 = d@;
                let mut p = d;
                p.append("/db.json");
                proof {
                    reveal_strlit("/db.json");
                    lemma_ends_with_append(
                        d0,
                        app_dir_name(),
                        seq!['/', 'd', 'b', '.', 'j', 's', 'o', 'n'],
                    );
                    assert(d0 + "/db.json"@ =~= d0 + seq!['/', 'd', 'b', '.', 'j', 's', 'o', 'n']);
                }
                Option::Some(p)
            },
            Option::None => Option::None,
        }
    }

    /// The path of the configuration file inside the configuration
    /// directory.
    pub fn get_config_file(&self) -> (r: Option<String>)
        ensures
            r matches Some(p) ==> ends_with(
                p@,
                app_dir_name() + seq!['/', 'c', 'o', 'n', 'f', 'i', 'g', '.', 't', 'o', 'm', 'l'],
            ),
    {
        match self.get_config_dir() {
            Option::Some(d) => {
                let ghost d0 = d@;
                let mut p = d;
                p.append("/config.toml");
                proof {
                    reveal_strlit("/config.toml");
                    lemma_ends_with_append(
                        d0,
                        app_dir_name(),
                        seq!['/', 'c', 'o', 'n', 'f', 'i', 'g', '.', 't', 'o', 'm', 'l'],
                    );
                    assert(d0 + "/config.toml"@ =~= d0 + seq![
                        '/',
                        'c',
                        'o',
                        'n',
                        'f',
                        'i',
                        'g',
                        '.',
                        't',
                        'o',
                        'm',
                        'l',
                    ]);
                }
                Option::Some(p)
            },
            Option::None => Option::None,
        }
    }
}

} // verus!
