//! Configuration of a blocking session and the values the command-line
//! layer hands to the core.

use vstd::prelude::*;

verus! {

/// The subcommands the command-line layer can ask the core to perform.
#[derive(Debug, PartialEq)]
pub enum Commands {
    Add { urls: Vec<String> },
    Remove { urls: Vec<String> },
    Start,
    Status,
    Stop,
}

/// Command-line arguments, already parsed into plain values.
#[derive(Debug)]
pub struct Args {
    pub command: Option<Commands>,
    pub duration: Option<u64>,
    pub background: bool,
    pub path: Option<String>,
    pub config: Option<String>,
}

/// Effective configuration of a blocking session. The core only reads it;
/// loading and saving it belongs to the caller.
#[derive(Debug, Clone)]
pub struct Config {
    pub hosts_path: String,
    pub block_ip: String,
    pub blocked_sites: Vec<String>,
    pub duration: u64,
    pub data_directory: String,
    pub log_directory: String,
    pub start_audio: String,
    pub end_audio: String,
}

/// `v` is the text of one of the strings in `urls`.
pub open spec fn in_list(v: Seq<char>, urls: Seq<String>) -> bool {
    exists|j: int| 0 <= j < urls.len() && #[trigger] urls[j]@ == v
}

/// All fields of `a` other than the blocked hostnames equal those of `b`.
pub open spec fn same_but_sites(a: Config, b: Config) -> bool {
    &&& a.hosts_path == b.hosts_path
    &&& a.block_ip == b.block_ip
    &&& a.duration == b.duration
    &&& a.data_directory == b.data_directory
    &&& a.log_directory == b.log_directory
    &&& a.start_audio == b.start_audio
    &&& a.end_audio == b.end_audio
}

/// Whether one of `urls` has the same text as `s`.
fn contains_url(urls: &Vec<String>, s: &String) -> (r: bool)
    ensures
        r == in_list(s@, urls@),
{
    let n = urls.len();
    let mut j: usize = 0;
    while j < n
        invariant
            n == urls@.len(),
            0 <= j <= n,
            forall|k: int| 0 <= k < j ==> urls@[k]@ != s@,
        decreases n - j,
    {
        if urls[j].eq(s) {
            assert(urls@[j as int]@ == s@);
            return true;
        }
        j += 1;
    }
    false
}

/// Appends the given hostnames to the configuration's blocked set, in
/// order. An empty list is rejected and the configuration is handed back
/// unchanged.
pub fn add_urls(urls: &Vec<String>, config: Config) -> (r: Result<Config, Config>)
    ensures
        urls@.len() == 0 ==> r == Err::<Config, Config>(config),
        urls@.len() > 0 ==> (r matches Ok(c) && c.blocked_sites@ == config.blocked_sites@ + urls@
            && same_but_sites(c, config)),
{
    if urls.len() == 0 {
        return Err(config);
    }
    let ghost orig: Seq<String> = config.blocked_sites@;
    let mut c = config;
    let n = urls.len();
    let mut i: usize = 0;
    while i < n
        invariant
            n == urls@.len(),
            0 <= i <= n,
            c.blocked_sites@ == orig + urls@.take(i as int),
            same_but_sites(c, config),
        decreases n - i,
    {
        let u: &String = &urls[i];
        c.blocked_sites.push(u.clone());
        proof {
            assert(orig + urls@.take(i + 1) =~= (orig + urls@.take(i as int)).push(
                urls@[i as int],
            ));
        }
        i += 1;
    }
    proof {
        assert(urls@.take(n as int) =~= urls@);
    }
    Ok(c)
}

/// Removes every hostname whose text equals one of `urls` from the
/// configuration's blocked set, keeping the rest in order. An empty list is
/// rejected and the configuration is handed back unchanged.
pub fn remove_urls(urls: &Vec<String>, config: Config) -> (r: Result<Config, Config>)
    ensures
        urls@.len() == 0 ==> r == Err::<Config, Config>(config),
        urls@.len() > 0 ==> (r matches Ok(c) && c.blocked_sites@ == config.blocked_sites@.filter(
            |s: String| !in_list(s@, urls@),
        ) && same_but_sites(c, config)),
{
    if urls.len() == 0 {
        return Err(config);
    }
    let ghost sites: Seq<String> = config.blocked_sites@;
    let ghost pred = |s: String| !in_list(s@, urls@);
    let mut kept: Vec<String> = Vec::new();
    proof {
        reveal(Seq::filter);
        assert(sites.take(0) =~= Seq::<String>::empty());
    }
    let n = config.blocked_sites.len();
    let mut i: usize = 0;
    while i < n
        invariant
            n == config.blocked_sites@.len(),
            sites == config.blocked_sites@,
            pred == (|s: String| !in_list(s@, urls@)),
            0 <= i <= n,
            kept@ == sites.take(i as int).filter(pred),
        decreases n - i,
    {
        let site: &String = &config.blocked_sites[i];
        proof {
            reveal(Seq::filter);
            assert(sites.take(i + 1).drop_last() =~= sites.take(i as int));
            assert(sites.take(i + 1).last() == sites[i as int]);
        }
        if !contains_url(urls, site) {
            kept.push(site.clone());
        }
        i += 1;
    }
    proof {
        assert(sites.take(n as int) =~= sites);
    }
    let mut c = config;
    c.blocked_sites = kept;
    Ok(c)
}

/// Applies the command-line overrides to the loaded configuration: an
/// explicit hosts-file path or duration replaces the configured one; all
/// other fields are kept.
pub fn resolve_config(config: Config, args: &Args) -> (r: Config)
    ensures
        r.hosts_path == (match args.path {
            Some(p) => p,
            None => config.hosts_path,
        }),
        r.duration == (match args.duration {
            Some(d) => d,
            None => config.duration,
        }),
        r.block_ip == config.block_ip,
        r.blocked_sites == config.blocked_sites,
        r.data_directory == config.data_directory,
        r.log_directory == config.log_directory,
        r.start_audio == config.start_audio,
        r.end_audio == config.end_audio,
{
    let mut c = config;
    match &args.path {
        Some(p) => {
            c.hosts_path = p.clone();
        },
        None => {},
    }
    match args.duration {
        Some(d) => {
            c.duration = d;
        },
        None => {},
    }
    c
}

} // verus!
