use crate::protocol::command::opt_text;
use crate::text::{ascii_upper, bytes_eq, nat_text, owned, to_ascii_uppercase, u64_text, usize_text};
use vstd::prelude::*;
use vstd::string::StringSliceAdditionalSpecFns;

verus! {

/// Whether a store file's metadata signature is blank: all zero bytes, as the
/// store leaves a file whose metadata was never written.
pub fn signature_is_blank(signature: &[u8]) -> (r: bool)
    ensures
        r == (forall|i: int| 0 <= i < signature@.len() ==> signature@[i] == 0u8),
{
    let mut k: usize = 0;
    while k < signature.len()
        invariant
            k <= signature@.len(),
            forall|i: int| 0 <= i < k ==> signature@[i] == 0u8,
        decreases signature@.len() - k,
    {
        if signature[k] != 0u8 {
            return false;
        }
        k += 1;
    }
    true
}

/// Whether a store file's metadata signature is there to read: the file
/// exists (`file_len` is its length) and is at least `signature_size` long.
pub fn signature_readable(file_len: Option<u64>, signature_size: u64) -> (r: bool)
    ensures
        r == (file_len matches Some(n) && n >= signature_size),
{
    match file_len {
        Some(n) => n >= signature_size,
        None => false,
    }
}

/// The number of worker threads: the one asked for, or one per CPU for 0.
pub fn worker_threads(requested: usize, cpus: usize) -> (r: usize)
    ensures
        r == (if requested == 0 {
            cpus
        } else {
            requested
        }),
{
    if requested == 0 {
        cpus
    } else {
        requested
    }
}


/// The figures of the INFO report; the fractional ones come written out.
pub struct InfoFigures {
    pub version: String,
    pub arch_bits: usize,
    pub process_id: u64,
    pub uptime_seconds: u64,
    pub used_memory: usize,
    pub used_memory_human: String,
    pub cache_memory: usize,
    pub cache_memory_human: String,
    pub commands_processed: u64,
    pub total_operations: u64,
    pub total_gets: u64,
    pub total_inserts: u64,
    pub keyspace_hits: u64,
    pub keyspace_misses: u64,
    pub cache_hit_rate: String,
    pub keys: u64,
}

/// Whether INFO for `section` (all sections when none is named) includes the
/// section whose name, in upper case, is `upper_name`; names compare in any
/// ASCII case.
pub open spec fn wants_section(section: Option<Seq<char>>, upper_name: Seq<u8>) -> bool {
    match section {
        None => true,
        Some(s) => ascii_upper(vstd::utf8::encode_utf8(s)) == upper_name,
    }
}

/// The Server section.
pub open spec fn server_section(f: InfoFigures) -> Seq<char> {
    "# Server\r\nredis_version:feox-"@ + f.version@ + "\r\nredis_mode:standalone\r\narch_bits:"@ + nat_text(
        f.arch_bits as nat,
    ) + "\r\nprocess_id:"@ + nat_text(f.process_id as nat) + "\r\ntcp_port:6379\r\nuptime_in_seconds:"@
        + nat_text(f.uptime_seconds as nat) + "\r\n"@
}

/// The Memory section.
pub open spec fn memory_section(f: InfoFigures) -> Seq<char> {
    "# Memory\r\nused_memory:"@ + nat_text(f.used_memory as nat) + "\r\nused_memory_human:"@
        + f.used_memory_human@ + "\r\nused_memory_cache:"@ + nat_text(f.cache_memory as nat)
        + "\r\nused_memory_cache_human:"@ + f.cache_memory_human@ + "\r\n"@
}

/// The Stats section.
pub open spec fn stats_section(f: InfoFigures) -> Seq<char> {
    "# Stats\r\ntotal_connections_received:0\r\ntotal_commands_processed:"@ + nat_text(
        f.commands_processed as nat,
    )
        + "\r\ninstantaneous_ops_per_sec:0\r\ntotal_net_input_bytes:0\r\ntotal_net_output_bytes:0\r\ntotal_operations:"@
        + nat_text(f.total_operations as nat) + "\r\ntotal_gets:"@ + nat_text(f.total_gets as nat)
        + "\r\ntotal_inserts:"@ + nat_text(f.total_inserts as nat) + "\r\nkeyspace_hits:"@ + nat_text(
        f.keyspace_hits as nat,
    ) + "\r\nkeyspace_misses:"@ + nat_text(f.keyspace_misses as nat) + "\r\ncache_hit_rate:"@
        + f.cache_hit_rate@ + "\r\n"@
}

/// The Keyspace section.
pub open spec fn keyspace_section(f: InfoFigures) -> Seq<char> {
    "# Keyspace\r\ndb0:keys="@ + nat_text(f.keys as nat) + ",expires=0,avg_ttl=0\r\n"@
}

/// A section's text when it is wanted, else nothing.
pub open spec fn when_wanted(wanted: bool, text: Seq<char>) -> Seq<char> {
    if wanted {
        text
    } else {
        Seq::empty()
    }
}

/// The INFO report for `section`: the Server, Memory, Stats and Keyspace
/// sections, in that order, each when wanted.
pub open spec fn info_text(section: Option<Seq<char>>, f: InfoFigures) -> Seq<char> {
    when_wanted(wants_section(section, "SERVER".spec_bytes()), server_section(f)) + when_wanted(
        wants_section(section, "MEMORY".spec_bytes()),
        memory_section(f),
    ) + when_wanted(wants_section(section, "STATS".spec_bytes()), stats_section(f)) + when_wanted(
        wants_section(section, "KEYSPACE".spec_bytes()),
        keyspace_section(f),
    )
}

/// Whether INFO for `section` includes the section named `upper_name`.
fn wants(section: &Option<String>, upper_name: &str) -> (r: bool)
    ensures
        r == wants_section(opt_text(*section), upper_name.spec_bytes()),
{
    match section {
        None => true,
        Some(s) => {
            let upper = to_ascii_uppercase(s.as_str().as_bytes());
            bytes_eq(upper.as_slice(), upper_name.as_bytes())
        },
    }
}

fn server_text(f: &InfoFigures) -> (r: String)
    ensures
        r@ == server_section(*f),
{
    let mut s = owned("# Server\r\nredis_version:feox-");
    s.append(f.version.as_str());
    s.append("\r\nredis_mode:standalone\r\narch_bits:");
    s.append(usize_text(f.arch_bits).as_str());
    s.append("\r\nprocess_id:");
    s.append(u64_text(f.process_id).as_str());
    s.append("\r\ntcp_port:6379\r\nuptime_in_seconds:");
    s.append(u64_text(f.uptime_seconds).as_str());
    s.append("\r\n");
    assert(s@ =~= server_section(*f));
    s
}

fn memory_text(f: &InfoFigures) -> (r: String)
    ensures
        r@ == memory_section(*f),
{
    let mut s = owned("# Memory\r\nused_memory:");
    s.append(usize_text(f.used_memory).as_str());
    s.append("\r\nused_memory_human:");
    s.append(f.used_memory_human.as_str());
    s.append("\r\nused_memory_cache:");
    s.append(usize_text(f.cache_memory).as_str());
    s.append("\r\nused_memory_cache_human:");
    s.append(f.cache_memory_human.as_str());
    s.append("\r\n");
    assert(s@ =~= memory_section(*f));
    s
}

fn stats_text(f: &InfoFigures) -> (r: String)
    ensures
        r@ == stats_section(*f),
{
    let mut s = owned("# Stats\r\ntotal_connections_received:0\r\ntotal_commands_processed:");
    s.append(u64_text(f.commands_processed).as_str());
    s.append(
        "\r\ninstantaneous_ops_per_sec:0\r\ntotal_net_input_bytes:0\r\ntotal_net_output_bytes:0\r\ntotal_operations:",
    );
    s.append(u64_text(f.total_operations).as_str());
    s.append("\r\ntotal_gets:");
    s.append(u64_text(f.total_gets).as_str());
    s.append("\r\ntotal_inserts:");
    s.append(u64_text(f.total_inserts).as_str());
    s.append("\r\nkeyspace_hits:");
    s.append(u64_text(f.keyspace_hits).as_str());
    s.append("\r\nkeyspace_misses:");
    s.append(u64_text(f.keyspace_misses).as_str());
    s.append("\r\ncache_hit_rate:");
    s.append(f.cache_hit_rate.as_str());
    s.append("\r\n");
    assert(s@ =~= stats_section(*f));
    s
}

fn keyspace_text(f: &InfoFigures) -> (r: String)
    ensures
        r@ == keyspace_section(*f),
{
    let mut s = owned("# Keyspace\r\ndb0:keys=");
    s.append(u64_text(f.keys).as_str());
    s.append(",expires=0,avg_ttl=0\r\n");
    assert(s@ =~= keyspace_section(*f));
    s
}

/// The INFO report for `section` (every section when `None`).
pub fn info_report(section: &Option<String>, f: &InfoFigures) -> (r: String)
    ensures
        r@ == info_text(opt_text(*section), *f),
{
    let mut info = String::new();
    let ghost sec = opt_text(*section);
    if wants(section, "SERVER") {
        info.append(server_text(f).as_str());
    }
    let ghost a = info@;
    assert(a =~= when_wanted(wants_section(sec, "SERVER".spec_bytes()), server_section(*f)));
    if wants(section, "MEMORY") {
        info.append(memory_text(f).as_str());
    }
    let ghost b = info@;
    assert(b =~= a + when_wanted(wants_section(sec, "MEMORY".spec_bytes()), memory_section(*f)));
    if wants(section, "STATS") {
        info.append(stats_text(f).as_str());
    }
    let ghost c = info@;
    assert(c =~= b + when_wanted(wants_section(sec, "STATS".spec_bytes()), stats_section(*f)));
    if wants(section, "KEYSPACE") {
        info.append(keyspace_text(f).as_str());
    }
    assert(info@ =~= c + when_wanted(wants_section(sec, "KEYSPACE".spec_bytes()), keyspace_section(*f)));
    info
}

} // verus!
