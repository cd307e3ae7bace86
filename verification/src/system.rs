//! Reading hardware facts out of the output of system tools.

use vstd::prelude::*;

use crate::parse::{
    fields, fields_of, first_word, first_word_of, lines, lines_of, parse_u64, parsed_u64,
};
use crate::text::{chars_of, has_prefix, starts_with_chars, string_of, trim, trim_chars};

verus! {

broadcast use vstd::string::group_string_axioms;

/// A model installed in Ollama.
#[derive(Clone, Debug, PartialEq, Eq)]
pub struct ModelInfo {
    pub name: String,
    pub size_bytes: u64,
}

/// The first NVIDIA GPU, as nvidia-smi reports it.
#[derive(Clone, Debug, PartialEq, Eq)]
pub struct GpuInfo {
    pub name: String,
    pub free_vram_mb: u64,
    pub total_vram_mb: u64,
}

/// What the status page shows.
#[derive(Clone, Debug, PartialEq, Eq)]
pub struct SystemStatus {
    pub ollama_reachable: bool,
    pub models: Vec<ModelInfo>,
    pub gpu: Option<GpuInfo>,
    pub total_ram_mb: u64,
    pub active_model: String,
    pub ollama_models_path: String,
}

/// The GPU described by the first line of nvidia-smi's CSV output
/// (`name, free MiB, total MiB`): `None` when there is no line, fewer than
/// three fields, or a memory field that is not a number.
pub open spec fn gpu_info_of(out: Seq<char>) -> Option<(Seq<char>, u64, u64)> {
    let ls = lines_of(out);
    if ls.len() == 0 {
        None
    } else {
        let parts = fields_of(ls[0], ',');
        if parts.len() < 3 {
            None
        } else {
            match (parsed_u64(trim(parts[1])), parsed_u64(trim(parts[2]))) {
                (Some(free), Some(total)) => Some((trim(parts[0]), free, total)),
                _ => None,
            }
        }
    }
}

/// Reads the first GPU from nvidia-smi's
/// `--query-gpu=name,memory.free,memory.total --format=csv,noheader,nounits`
/// output, as [`gpu_info_of`] describes.
pub fn parse_gpu_info(stdout: &str) -> (r: Option<GpuInfo>)
    ensures
        r matches Some(g) ==> gpu_info_of(stdout@) == Some((g.name@, g.free_vram_mb, g.total_vram_mb)),
        r is None ==> gpu_info_of(stdout@) is None,
{
    let ls = lines(stdout);
    if ls.len() == 0 {
        return None;
    }
    let parts = fields(&ls[0], ',');
    if parts.len() < 3 {
        return None;
    }
    let free = parse_u64(&trim_chars(&parts[1]));
    let total = parse_u64(&trim_chars(&parts[2]));
    match (free, total) {
        (Some(free_vram_mb), Some(total_vram_mb)) => {
            let name = string_of(&trim_chars(&parts[0]));
            Some(GpuInfo { name, free_vram_mb, total_vram_mb })
        },
        _ => None,
    }
}

/// The free memory, in MiB, on the first line of nvidia-smi's
/// `--query-gpu=memory.free` output.
pub open spec fn free_vram_of(out: Seq<char>) -> Option<u64> {
    let ls = lines_of(out);
    if ls.len() == 0 {
        None
    } else {
        parsed_u64(trim(ls[0]))
    }
}

/// Reads the free memory of the first GPU, as [`free_vram_of`] describes.
pub fn parse_free_vram_mb(stdout: &str) -> (r: Option<u64>)
    ensures
        r == free_vram_of(stdout@),
{
    let ls = lines(stdout);
    if ls.len() == 0 {
        return None;
    }
    parse_u64(&trim_chars(&ls[0]))
}

/// The label of the total-memory line of `/proc/meminfo`.
pub open spec fn memtotal_label() -> Seq<char> {
    "MemTotal:"@
}

/// The kibibytes on a `MemTotal:` line, when the line is one and carries a
/// number.
pub open spec fn memtotal_kb(line: Seq<char>) -> Option<u64> {
    if has_prefix(line, memtotal_label()) {
        match first_word(line.skip(memtotal_label().len() as int)) {
            Some(w) => parsed_u64(w),
            None => None,
        }
    } else {
        None
    }
}

/// The total memory, in MiB, from the first readable `MemTotal:` line among
/// `ls`.
pub open spec fn memtotal_mb_in(ls: Seq<Seq<char>>) -> Option<u64>
    decreases ls.len(),
{
    if ls.len() == 0 {
        None
    } else {
        match memtotal_kb(ls[0]) {
            Some(kb) => Some(kb / 1024),
            None => memtotal_mb_in(ls.drop_first()),
        }
    }
}

/// Reads the total memory in MiB from the text of `/proc/meminfo`
/// (`MemTotal:       16376648 kB`).
pub fn parse_meminfo_total_mb(content: &str) -> (r: Option<u64>)
    ensures
        r == memtotal_mb_in(lines_of(content@)),
{
    proof {
        reveal_strlit("MemTotal:");
    }
    let ls = lines(content);
    let label = chars_of("MemTotal:");
    let ghost all = lines_of(content@);
    assert(all.skip(0) == all);
    let mut k: usize = 0;
    while k < ls.len()
        invariant
            k <= ls@.len() == all.len(),
            label@ == memtotal_label(),
            all == lines_of(content@),
            label@.len() == 9,
            forall|t: int| 0 <= t < ls@.len() ==> (#[trigger] ls@[t])@ == all[t],
            memtotal_mb_in(all) == memtotal_mb_in(all.skip(k as int)),
        decreases ls@.len() - k,
    {
        let line = &ls[k];
        proof {
            assert(all.skip(k as int)[0] == line@);
            assert(all.skip(k as int).drop_first() == all.skip(k + 1));
        }
        if starts_with_chars(line, &label) {
            let mut rest: Vec<char> = Vec::new();
            let mut t: usize = 9;
            while t < line.len()
                invariant
                    9 <= t <= line@.len(),
                    rest@ == line@.subrange(9, t as int),
                decreases line@.len() - t,
            {
                rest.push(line[t]);
                assert(line@.subrange(9, t + 1) == line@.subrange(9, t as int).push(line@[t as int]));
                t = t + 1;
            }
            assert(rest@ == line@.skip(9));
            if let Some(w) = first_word_of(&rest) {
                if let Some(kb) = parse_u64(&w) {
                    assert(has_prefix(line@, memtotal_label()));
                    assert(memtotal_kb(line@) == Some(kb));
                    assert(memtotal_mb_in(all.skip(k as int)) == Some((kb / 1024) as u64));
                    return Some(kb / 1024);
                }
            }
        }
        k = k + 1;
    }
    None
}

/// The label of the total-memory line of `wmic OS get TotalVisibleMemorySize /Value`.
pub open spec fn wmic_label() -> Seq<char> {
    "TotalVisibleMemorySize="@
}

/// The total memory, in MiB, from the first line among `ls` that, trimmed,
/// is `TotalVisibleMemorySize=<kibibytes>`.
pub open spec fn wmic_mb_in(ls: Seq<Seq<char>>) -> Option<u64>
    decreases ls.len(),
{
    if ls.len() == 0 {
        None
    } else {
        let t = trim(ls[0]);
        if has_prefix(t, wmic_label()) && parsed_u64(t.skip(wmic_label().len() as int)) is Some {
            Some(parsed_u64(t.skip(wmic_label().len() as int))->0 / 1024)
        } else {
            wmic_mb_in(ls.drop_first())
        }
    }
}

/// Reads the total memory in MiB from the output of
/// `wmic OS get TotalVisibleMemorySize /Value`.
pub fn parse_wmic_total_mb(stdout: &str) -> (r: Option<u64>)
    ensures
        r == wmic_mb_in(lines_of(stdout@)),
{
    proof {
        reveal_strlit("TotalVisibleMemorySize=");
    }
    let ls = lines(stdout);
    let label = chars_of("TotalVisibleMemorySize=");
    let ghost all = lines_of(stdout@);
    assert(all.skip(0) == all);
    let mut k: usize = 0;
    while k < ls.len()
        invariant
            k <= ls@.len() == all.len(),
            label@ == wmic_label(),
            all == lines_of(stdout@),
            label@.len() == 23,
            forall|t: int| 0 <= t < ls@.len() ==> (#[trigger] ls@[t])@ == all[t],
            wmic_mb_in(all) == wmic_mb_in(all.skip(k as int)),
        decreases ls@.len() - k,
    {
        let trimmed = trim_chars(&ls[k]);
        proof {
            assert(all.skip(k as int)[0] == ls@[k as int]@);
            assert(all.skip(k as int).drop_first() == all.skip(k + 1));
        }
        if starts_with_chars(&trimmed, &label) {
            let mut rest: Vec<char> = Vec::new();
            let mut t: usize = 23;
            while t < trimmed.len()
                invariant
                    23 <= t <= trimmed@.len(),
                    rest@ == trimmed@.subrange(23, t as int),
                decreases trimmed@.len() - t,
            {
                rest.push(trimmed[t]);
                assert(trimmed@.subrange(23, t + 1) == trimmed@.subrange(23, t as int).push(
                    trimmed@[t as int],
                ));
                t = t + 1;
            }
            assert(rest@ == trimmed@.skip(23));
            if let Some(kb) = parse_u64(&rest) {
                assert(has_prefix(trimmed@, wmic_label()));
                assert(trim(all.skip(k as int)[0]) == trimmed@);
                assert(wmic_mb_in(all.skip(k as int)) == Some((kb / 1024) as u64));
                return Some(kb / 1024);
            }
        }
        k = k + 1;
    }
    None
}

/// Reads the total memory in MiB from the output of `sysctl -n hw.memsize`,
/// which is the size in bytes.
pub fn parse_sysctl_total_mb(stdout: &str) -> (r: Option<u64>)
    ensures
        r == (match parsed_u64(trim(stdout@)) {
            Some(bytes) => Some(bytes / 1_048_576),
            None => None,
        }),
{
    let v = chars_of(stdout);
    match parse_u64(&trim_chars(&v)) {
        Some(bytes) => Some(bytes / 1_048_576),
        None => None,
    }
}

} // verus!
