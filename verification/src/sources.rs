//! Where samples are fetched from, and which sources have to be fetched
//! again.

use vstd::prelude::*;

verus! {

/// A platform of the ByteWeight experiments.
#[derive(Debug, Copy, Clone, PartialEq, Eq, Structural)]
pub enum ByteWeightPlatform {
    PeX86,
    ElfX86,
}

impl ByteWeightPlatform {
    /// The name of the platform's directory.
    pub fn name(&self) -> (r: String)
        ensures
            r@ == (match *self {
                ByteWeightPlatform::PeX86 => "pe-x86"@,
                ByteWeightPlatform::ElfX86 => "elf-x86"@,
            }),
    {
        match self {
            ByteWeightPlatform::PeX86 => "pe-x86".to_owned(),
            ByteWeightPlatform::ElfX86 => "elf-x86".to_owned(),
        }
    }

    /// Both platforms, in the order in which they are read.
    pub fn all() -> (r: Vec<ByteWeightPlatform>)
        ensures
            r@ =~= seq![ByteWeightPlatform::PeX86, ByteWeightPlatform::ElfX86],
    {
        let mut all: Vec<ByteWeightPlatform> = Vec::new();
        all.push(ByteWeightPlatform::PeX86);
        all.push(ByteWeightPlatform::ElfX86);
        all
    }
}

/// The ByteWeight experiments, unpacked in a directory.
#[derive(Clone, Debug, PartialEq, Eq)]
pub struct ByteweightSourceInfo {
    pub experiments_path: String,
}

/// Packages of a Debian distribution.
#[derive(Clone, Debug, PartialEq, Eq)]
pub struct DebianSourceInfo {
    pub mirror: String,
    /// The mirror of the debug packages, for distributions that keep them
    /// apart.
    pub debug_mirror: Option<String>,
    pub distribution: String,
    pub debug_distribution: String,
    pub arch: String,
    pub packages: Vec<String>,
}

/// What is specific to a kind of source.
#[derive(Clone, Debug, PartialEq, Eq)]
pub enum SpecificSourceInfo {
    Debian(DebianSourceInfo),
    Byteweight(ByteweightSourceInfo),
}

/// A source, and the subdirectory that its samples go to.
#[derive(Clone, Debug, PartialEq, Eq)]
pub struct SourceInfo {
    pub subdirectory: String,
    pub specific: SpecificSourceInfo,
}

/// The sources to fetch.
#[derive(Clone, Debug, PartialEq, Eq)]
pub struct FetchConfig {
    pub sources: Vec<SourceInfo>,
}

/// Where packages of a Debian distribution come from.
#[derive(Clone, Debug, PartialEq, Eq)]
pub struct DebianConfig {
    pub mirror: String,
    pub debug_mirror: Option<String>,
    pub distribution: String,
    pub arch: String,
}

/// Where packages of a Debian distribution come from, as given on the
/// command line.
#[derive(Clone, Debug, PartialEq, Eq)]
pub struct DebianConfigOpt {
    pub mirror: String,
    pub debug_mirror: String,
    pub no_debug_mirror: bool,
    pub distribution: String,
    pub arch: String,
}

impl DebianConfig {
    /// The settings that the options give: the debug mirror is left out
    /// where the options say so.
    pub fn from_options(opt: DebianConfigOpt) -> (r: DebianConfig)
        ensures
            r.mirror == opt.mirror,
            r.debug_mirror == (if opt.no_debug_mirror { None } else { Some(opt.debug_mirror) }),
            r.distribution == opt.distribution,
            r.arch == opt.arch,
    {
        DebianConfig {
            mirror: opt.mirror,
            debug_mirror: if opt.no_debug_mirror { None } else { Some(opt.debug_mirror) },
            distribution: opt.distribution,
            arch: opt.arch,
        }
    }
}

impl Default for DebianConfig {
    fn default() -> (r: DebianConfig)
        ensures
            r.mirror@ == "http://deb.debian.org/debian"@,
            r.debug_mirror matches Some(m) && m@ == "http://debug.mirrors.debian.org/debian-debug"@,
            r.distribution@ == "buster"@,
            r.arch@ == "i386"@,
    {
        DebianConfig {
            mirror: "http://deb.debian.org/debian".to_owned(),
            debug_mirror: Some("http://debug.mirrors.debian.org/debian-debug".to_owned()),
            distribution: "buster".to_owned(),
            arch: "i386".to_owned(),
        }
    }
}

/// Whether two lists of strings hold the same strings in the same order.
pub open spec fn same_strings(a: Seq<String>, b: Seq<String>) -> bool {
    a.len() == b.len() && forall|i: int| 0 <= i < a.len() ==> (#[trigger] a[i])@ == b[i]@
}

/// Whether two optional strings are both absent or hold the same text.
pub open spec fn same_option(a: Option<String>, b: Option<String>) -> bool {
    match (a, b) {
        (Some(x), Some(y)) => x@ == y@,
        (None, None) => true,
        _ => false,
    }
}

impl DebianSourceInfo {
    /// Whether the two say the same.
    pub open spec fn same(self, other: DebianSourceInfo) -> bool {
        &&& self.mirror@ == other.mirror@
        &&& same_option(self.debug_mirror, other.debug_mirror)
        &&& self.distribution@ == other.distribution@
        &&& self.debug_distribution@ == other.debug_distribution@
        &&& self.arch@ == other.arch@
        &&& same_strings(self.packages@, other.packages@)
    }

    /// Whether the two say the same.
    pub fn same_as(&self, other: &DebianSourceInfo) -> (r: bool)
        ensures
            r == self.same(*other),
    {
        if !(self.mirror == other.mirror && self.distribution == other.distribution
            && self.debug_distribution == other.debug_distribution && self.arch == other.arch) {
            return false;
        }
        let mirrors = match (&self.debug_mirror, &other.debug_mirror) {
            (Some(x), Some(y)) => *x == *y,
            (None, None) => true,
            _ => false,
        };
        if !mirrors {
            return false;
        }
        if self.packages.len() != other.packages.len() {
            return false;
        }
        let mut i: usize = 0;
        while i < self.packages.len()
            invariant
                0 <= i <= self.packages@.len(),
                self.packages@.len() == other.packages@.len(),
                forall|k: int| 0 <= k < i ==> (#[trigger] self.packages@[k])@ == other.packages@[k]@,
            decreases self.packages@.len() - i,
        {
            if self.packages[i] != other.packages[i] {
                return false;
            }
            i += 1;
        }
        true
    }
}

impl SpecificSourceInfo {
    /// Whether the two say the same.
    pub open spec fn same(self, other: SpecificSourceInfo) -> bool {
        match (self, other) {
            (SpecificSourceInfo::Debian(a), SpecificSourceInfo::Debian(b)) => a.same(b),
            (SpecificSourceInfo::Byteweight(a), SpecificSourceInfo::Byteweight(b)) => a.experiments_path@
                == b.experiments_path@,
            _ => false,
        }
    }

    /// Whether the two say the same.
    pub fn same_as(&self, other: &SpecificSourceInfo) -> (r: bool)
        ensures
            r == self.same(*other),
    {
        match (self, other) {
            (SpecificSourceInfo::Debian(a), SpecificSourceInfo::Debian(b)) => a.same_as(b),
            (SpecificSourceInfo::Byteweight(a), SpecificSourceInfo::Byteweight(b)) => a.experiments_path
                == b.experiments_path,
            _ => false,
        }
    }
}

impl SourceInfo {
    /// Whether the source has to be fetched again: there is no stamp of an
    /// earlier fetch, or the stamp says something else than the source does
    /// now.
    pub fn is_outdated(&self, stamp: &Option<SpecificSourceInfo>) -> (r: bool)
        ensures
            r == !(stamp matches Some(stamped) && stamped.same(self.specific)),
    {
        match stamp {
            Some(stamped) => !stamped.same_as(&self.specific),
            None => true,
        }
    }
}

impl FetchConfig {
    /// The first source whose subdirectory an earlier source uses too, if
    /// there is one: no two sources may share a subdirectory.
    pub fn duplicate_subdirectory(&self) -> (r: Option<usize>)
        ensures
            match r {
                Some(at) => at < self.sources@.len() && (exists|earlier: int|
                    0 <= earlier < at && (#[trigger] self.sources@[earlier]).subdirectory@
                        == self.sources@[at as int].subdirectory@) && forall|i: int, j: int|
                    0 <= i < j < at ==> (#[trigger] self.sources@[i]).subdirectory@ != (
                    #[trigger] self.sources@[j]).subdirectory@,
                None => forall|i: int, j: int|
                    0 <= i < j < self.sources@.len() ==> (#[trigger] self.sources@[i]).subdirectory@ != (
                    #[trigger] self.sources@[j]).subdirectory@,
            },
    {
        let mut at: usize = 0;
        while at < self.sources.len()
            invariant
                0 <= at <= self.sources@.len(),
                forall|i: int, j: int|
                    0 <= i < j < at ==> (#[trigger] self.sources@[i]).subdirectory@ != (
                    #[trigger] self.sources@[j]).subdirectory@,
            decreases self.sources@.len() - at,
        {
            let mut earlier: usize = 0;
            while earlier < at
                invariant
                    0 <= earlier <= at < self.sources@.len(),
                    forall|i: int, j: int|
                        0 <= i < j < at ==> (#[trigger] self.sources@[i]).subdirectory@ != (
                        #[trigger] self.sources@[j]).subdirectory@,
                    forall|i: int|
                        0 <= i < earlier ==> (#[trigger] self.sources@[i]).subdirectory@
                            != self.sources@[at as int].subdirectory@,
                decreases at - earlier,
            {
                if self.sources[earlier].subdirectory == self.sources[at].subdirectory {
                    assert(self.sources@[earlier as int].subdirectory@ == self.sources@[at as int].subdirectory@);
                    return Some(at);
                }
                earlier += 1;
            }
            at += 1;
        }
        None
    }

    /// The sources that have to be fetched again, given the stamp of each
    /// source's earlier fetch: their positions, in order.
    pub fn outdated(&self, stamps: &Vec<Option<SpecificSourceInfo>>) -> (r: Vec<usize>)
        requires
            stamps@.len() == self.sources@.len(),
        ensures
            forall|k: int| 0 <= k < r@.len() ==> (#[trigger] r@[k]) < self.sources@.len(),
            forall|k: int, m: int| 0 <= k < m < r@.len() ==> (#[trigger] r@[k]) < (#[trigger] r@[m]),
            forall|i: int|
                0 <= i < self.sources@.len() ==> (r@.contains(i as usize) <==> !((
                #[trigger] stamps@[i]) matches Some(stamped) && stamped.same(self.sources@[i].specific))),
    {
        let mut out: Vec<usize> = Vec::new();
        let mut i: usize = 0;
        while i < self.sources.len()
            invariant
                0 <= i <= self.sources@.len(),
                stamps@.len() == self.sources@.len(),
                forall|k: int| 0 <= k < out@.len() ==> (#[trigger] out@[k]) < i,
                forall|k: int, m: int| 0 <= k < m < out@.len() ==> (#[trigger] out@[k]) < (#[trigger] out@[m]),
                forall|j: int|
                    0 <= j < i ==> (out@.contains(j as usize) <==> !((#[trigger] stamps@[j]) matches Some(
                        stamped,
                    ) && stamped.same(self.sources@[j].specific))),
            decreases self.sources@.len() - i,
        {
            let ghost before = out@;
            if self.sources[i].is_outdated(&stamps[i]) {
                out.push(i);
            }
            proof {
                assert forall|j: int| 0 <= j < i + 1 implies (out@.contains(j as usize) <==> !((
                #[trigger] stamps@[j]) matches Some(stamped) && stamped.same(self.sources@[j].specific))) by {
                    if before.contains(j as usize) {
                        let k = choose|k: int| 0 <= k < before.len() && before[k] == j as usize;
                        assert(out@[k] == j as usize);
                    }
                    if out@.contains(j as usize) && j < i {
                        let k = choose|k: int| 0 <= k < out@.len() && out@[k] == j as usize;
                        if k == before.len() {
                        } else {
                            assert(before[k] == j as usize);
                        }
                    }
                    if j == i && out@.len() > before.len() {
                        assert(out@[out@.len() - 1] == i);
                    }
                    if j == i && out@.contains(i) && out@.len() == before.len() {
                        let k = choose|k: int| 0 <= k < out@.len() && out@[k] == i;
                        assert(before[k] < i);
                    }
                }
            }
            i += 1;
        }
        out
    }
}

} // verus!
