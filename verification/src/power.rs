//! What `powermetrics` reports about tasks and processors.

use vstd::prelude::*;

use crate::text::push_text;
use crate::text::texts_of;
use crate::Pid;

verus! {

/// A single-precision number, held by its bit pattern. Nothing is computed
/// with it here: it is carried from the place that measured it to the place
/// that shows it.
#[derive(Debug, Clone, Copy, PartialEq, Eq, Structural)]
pub struct Real32 {
    pub bits: u32,
}

/// The figures of one task.
#[derive(Debug)]
pub struct Task {
    pub pid: Pid,
    pub gputime_ms_per_s: Real32,
}

/// One logical processor.
#[derive(Debug)]
pub struct Cpu {
    pub freq_hz: Real32,
}

/// A cluster of processors (Apple Silicon).
#[derive(Debug)]
pub struct Cluster {
    pub cpus: Vec<Cpu>,
}

/// A core with its processors (Intel).
#[derive(Debug)]
pub struct Core {
    pub cpus: Vec<Cpu>,
}

/// A package of cores (Intel).
#[derive(Debug)]
pub struct Package {
    pub cores: Vec<Core>,
}

/// The processors of the machine: in clusters on Apple Silicon, in packages
/// on Intel.
#[derive(Debug)]
pub struct ProcessorInfo {
    pub clusters: Vec<Cluster>,
    pub packages: Vec<Package>,
}

/// One report of `powermetrics`.
#[derive(Debug)]
pub struct PowerMetricsResult {
    pub tasks: Vec<Task>,
    pub processor: ProcessorInfo,
}

/// The arguments of `powermetrics`: one sample of one second, as a property
/// list.
pub open spec fn powermetrics_arguments() -> Seq<Seq<char>> {
    seq![
        "--samplers"@,
        "tasks,cpu_power"@,
        "--show-process-gpu"@,
        "-n1"@,
        "-i1000"@,
        "-f"@,
        "plist"@,
    ]
}

/// The arguments of `powermetrics`.
pub fn powermetrics_args() -> (r: Vec<String>)
    ensures
        texts_of(r@) == powermetrics_arguments(),
{
    let mut args: Vec<String> = Vec::new();
    push_text(&mut args, "--samplers");
    push_text(&mut args, "tasks,cpu_power");
    push_text(&mut args, "--show-process-gpu");
    push_text(&mut args, "-n1");
    push_text(&mut args, "-i1000");
    push_text(&mut args, "-f");
    push_text(&mut args, "plist");
    assert(texts_of(args@) =~= powermetrics_arguments());
    args
}

/// The exit code `code` is that of a command that has done its work.
pub open spec fn success(code: Option<i32>) -> bool {
    code == Some(0i32)
}

/// Whether a command that ended with the exit code `code` has done its work;
/// one that was killed has no code.
pub fn succeeded(code: Option<i32>) -> (r: bool)
    ensures
        r == (code == Some(0i32)),
        r == success(code),
{
    match code {
        Some(n) => n == 0,
        None => false,
    }
}

/// The frequencies of a row of processors.
pub open spec fn cpus_hz(cpus: Seq<Cpu>) -> Seq<Real32> {
    Seq::new(cpus.len(), |i: int| cpus[i].freq_hz)
}

/// The frequencies of the processors of all clusters, in order.
pub open spec fn clusters_hz(clusters: Seq<Cluster>) -> Seq<Real32>
    decreases clusters.len(),
{
    if clusters.len() == 0 {
        Seq::empty()
    } else {
        clusters_hz(clusters.drop_last()) + cpus_hz(clusters.last().cpus@)
    }
}

/// The frequencies of the processors of all cores, in order.
pub open spec fn cores_hz(cores: Seq<Core>) -> Seq<Real32>
    decreases cores.len(),
{
    if cores.len() == 0 {
        Seq::empty()
    } else {
        cores_hz(cores.drop_last()) + cpus_hz(cores.last().cpus@)
    }
}

/// The frequencies of the processors of all packages, in order.
pub open spec fn packages_hz(packages: Seq<Package>) -> Seq<Real32>
    decreases packages.len(),
{
    if packages.len() == 0 {
        Seq::empty()
    } else {
        packages_hz(packages.drop_last()) + cores_hz(packages.last().cores@)
    }
}

impl ProcessorInfo {
    /// The frequencies of all processors: those of the clusters where there
    /// are clusters, else those of the packages.
    pub open spec fn hz(&self) -> Seq<Real32> {
        if self.clusters@.len() > 0 {
            clusters_hz(self.clusters@)
        } else {
            packages_hz(self.packages@)
        }
    }

    /// The frequencies of all processors, in order.
    pub fn frequencies(&self) -> (r: Vec<Real32>)
        ensures
            r@ == self.hz(),
    {
        let mut out: Vec<Real32> = Vec::new();
        if self.clusters.len() > 0 {
            let mut i: usize = 0;
            assert(self.clusters@.take(0) =~= Seq::empty());
            while i < self.clusters.len()
                invariant
                    i <= self.clusters.len(),
                    out@ == clusters_hz(self.clusters@.take(i as int)),
                decreases self.clusters.len() - i,
            {
                push_cpus(&mut out, &self.clusters[i].cpus);
                proof {
                    let now = self.clusters@.take(i + 1);
                    assert(now.drop_last() =~= self.clusters@.take(i as int));
                    assert(now.last() == self.clusters@[i as int]);
                }
                i += 1;
            }
            assert(self.clusters@.take(self.clusters@.len() as int) =~= self.clusters@);
        } else {
            let mut i: usize = 0;
            assert(self.packages@.take(0) =~= Seq::empty());
            while i < self.packages.len()
                invariant
                    i <= self.packages.len(),
                    out@ == packages_hz(self.packages@.take(i as int)),
                decreases self.packages.len() - i,
            {
                push_cores(&mut out, &self.packages[i].cores);
                proof {
                    let now = self.packages@.take(i + 1);
                    assert(now.drop_last() =~= self.packages@.take(i as int));
                    assert(now.last() == self.packages@[i as int]);
                }
                i += 1;
            }
            assert(self.packages@.take(self.packages@.len() as int) =~= self.packages@);
        }
        out
    }
}

fn push_cpus(out: &mut Vec<Real32>, cpus: &Vec<Cpu>)
    ensures
        final(out)@ == old(out)@ + cpus_hz(cpus@),
{
    let mut i: usize = 0;
    while i < cpus.len()
        invariant
            i <= cpus.len(),
            out@ == old(out)@ + cpus_hz(cpus@).take(i as int),
        decreases cpus.len() - i,
    {
        out.push(cpus[i].freq_hz);
        assert(cpus_hz(cpus@).take(i + 1) =~= cpus_hz(cpus@).take(i as int).push(
            cpus_hz(cpus@)[i as int],
        ));
        i += 1;
    }
    assert(cpus_hz(cpus@).take(cpus@.len() as int) =~= cpus_hz(cpus@));
}

fn push_cores(out: &mut Vec<Real32>, cores: &Vec<Core>)
    ensures
        final(out)@ == old(out)@ + cores_hz(cores@),
{
    let mut i: usize = 0;
    assert(cores@.take(0) =~= Seq::empty());
    while i < cores.len()
        invariant
            i <= cores.len(),
            out@ == old(out)@ + cores_hz(cores@.take(i as int)),
        decreases cores.len() - i,
    {
        push_cpus(out, &cores[i].cpus);
        proof {
            let now = cores@.take(i + 1);
            assert(now.drop_last() =~= cores@.take(i as int));
            assert(now.last() == cores@[i as int]);
        }
        i += 1;
    }
    assert(cores@.take(cores@.len() as int) =~= cores@);
}

// ---------------------------------------------------------------------------
// Laws
// ---------------------------------------------------------------------------

/// Where a machine has clusters, its packages make no difference.
pub proof fn law_clusters_come_first(a: ProcessorInfo, b: ProcessorInfo)
    requires
        a.clusters@ == b.clusters@,
        a.clusters@.len() > 0,
    ensures
        a.hz() == b.hz(),
{
}

/// A processor of a cluster has its frequency among those of all clusters,
/// behind those of the clusters before it.
pub proof fn law_every_cluster_is_listed(clusters: Seq<Cluster>, i: int, k: int)
    requires
        0 <= i < clusters.len(),
        0 <= k < clusters[i].cpus@.len(),
    ensures
        ({
            let at = clusters_hz(clusters.take(i)).len() + k;
            &&& at < clusters_hz(clusters).len()
            &&& clusters_hz(clusters)[at] == clusters[i].cpus@[k].freq_hz
        }),
    decreases clusters.len(),
{
    let before = clusters.drop_last();
    if i == clusters.len() - 1 {
        assert(clusters.take(i) =~= before);
    } else {
        law_every_cluster_is_listed(before, i, k);
        assert(before.take(i) =~= clusters.take(i));
    }
}

/// A processor of a core has its frequency among those of all cores, behind
/// those of the cores before it.
pub proof fn law_every_core_is_listed(cores: Seq<Core>, i: int, k: int)
    requires
        0 <= i < cores.len(),
        0 <= k < cores[i].cpus@.len(),
    ensures
        ({
            let at = cores_hz(cores.take(i)).len() + k;
            &&& at < cores_hz(cores).len()
            &&& cores_hz(cores)[at] == cores[i].cpus@[k].freq_hz
        }),
    decreases cores.len(),
{
    let before = cores.drop_last();
    if i == cores.len() - 1 {
        assert(cores.take(i) =~= before);
    } else {
        law_every_core_is_listed(before, i, k);
        assert(before.take(i) =~= cores.take(i));
    }
}

/// A processor of a core in a package has its frequency among those of all
/// packages, behind those of the packages before it and of the cores before
/// its own.
pub proof fn law_every_package_is_listed(packages: Seq<Package>, p: int, i: int, k: int)
    requires
        0 <= p < packages.len(),
        0 <= i < packages[p].cores@.len(),
        0 <= k < packages[p].cores@[i].cpus@.len(),
    ensures
        ({
            let at = packages_hz(packages.take(p)).len() + cores_hz(
                packages[p].cores@.take(i),
            ).len() + k;
            &&& at < packages_hz(packages).len()
            &&& packages_hz(packages)[at] == packages[p].cores@[i].cpus@[k].freq_hz
        }),
    decreases packages.len(),
{
    let before = packages.drop_last();
    if p == packages.len() - 1 {
        assert(packages.take(p) =~= before);
        law_every_core_is_listed(packages[p].cores@, i, k);
    } else {
        law_every_package_is_listed(before, p, i, k);
        assert(before.take(p) =~= packages.take(p));
    }
}

proof fn lemma_clusters_flat(clusters: Seq<Cluster>)
    ensures
        clusters_hz(clusters) == clusters.map_values(
            |c: Cluster| c.cpus@.map_values(|u: Cpu| u.freq_hz),
        ).flatten_alt(),
        clusters_hz(clusters).len() == clusters.map_values(
            |c: Cluster| c.cpus@.len() as int,
        ).fold_left(0int, |sum: int, n: int| sum + n),
    decreases clusters.len(),
{
    let lists = clusters.map_values(|c: Cluster| c.cpus@.map_values(|u: Cpu| u.freq_hz));
    let counts = clusters.map_values(|c: Cluster| c.cpus@.len() as int);
    if clusters.len() > 0 {
        let before = clusters.drop_last();
        lemma_clusters_flat(before);
        assert(lists.drop_last() =~= before.map_values(
            |c: Cluster| c.cpus@.map_values(|u: Cpu| u.freq_hz),
        ));
        assert(counts.drop_last() =~= before.map_values(|c: Cluster| c.cpus@.len() as int));
        assert(lists.last() =~= cpus_hz(clusters.last().cpus@));
    }
}

proof fn lemma_cores_flat(cores: Seq<Core>)
    ensures
        cores_hz(cores) == cores.map_values(
            |c: Core| c.cpus@.map_values(|u: Cpu| u.freq_hz),
        ).flatten_alt(),
    decreases cores.len(),
{
    let lists = cores.map_values(|c: Core| c.cpus@.map_values(|u: Cpu| u.freq_hz));
    if cores.len() > 0 {
        let before = cores.drop_last();
        lemma_cores_flat(before);
        assert(lists.drop_last() =~= before.map_values(
            |c: Core| c.cpus@.map_values(|u: Cpu| u.freq_hz),
        ));
        assert(lists.last() =~= cpus_hz(cores.last().cpus@));
    }
}

proof fn lemma_packages_flat(packages: Seq<Package>)
    ensures
        packages_hz(packages) == packages.map_values(
            |p: Package|
                p.cores@.map_values(
                    |c: Core| c.cpus@.map_values(|u: Cpu| u.freq_hz),
                ).flatten(),
        ).flatten_alt(),
    decreases packages.len(),
{
    let lists = packages.map_values(
        |p: Package|
            p.cores@.map_values(|c: Core| c.cpus@.map_values(|u: Cpu| u.freq_hz)).flatten(),
    );
    if packages.len() > 0 {
        let before = packages.drop_last();
        let cores = packages.last().cores@;
        lemma_packages_flat(before);
        lemma_cores_flat(cores);
        cores.map_values(
            |c: Core| c.cpus@.map_values(|u: Cpu| u.freq_hz),
        ).lemma_flatten_and_flatten_alt_are_equivalent();
        assert(lists.drop_last() =~= before.map_values(
            |p: Package|
                p.cores@.map_values(
                    |c: Core| c.cpus@.map_values(|u: Cpu| u.freq_hz),
                ).flatten(),
        ));
        assert(lists.last() == cores_hz(cores));
    }
}

/// The frequencies of a machine are those of every processor of every cluster,
/// one list after the other; where there is no cluster, they are those of every
/// processor of every core of every package.
pub proof fn law_every_processor_is_listed(info: ProcessorInfo)
    ensures
        info.clusters@.len() > 0 ==> info.hz() == info.clusters@.map_values(
            |c: Cluster| c.cpus@.map_values(|u: Cpu| u.freq_hz),
        ).flatten(),
        info.clusters@.len() == 0 ==> info.hz() == info.packages@.map_values(
            |p: Package|
                p.cores@.map_values(
                    |c: Core| c.cpus@.map_values(|u: Cpu| u.freq_hz),
                ).flatten(),
        ).flatten(),
{
    lemma_clusters_flat(info.clusters@);
    lemma_packages_flat(info.packages@);
    info.clusters@.map_values(
        |c: Cluster| c.cpus@.map_values(|u: Cpu| u.freq_hz),
    ).lemma_flatten_and_flatten_alt_are_equivalent();
    info.packages@.map_values(
        |p: Package|
            p.cores@.map_values(|c: Core| c.cpus@.map_values(|u: Cpu| u.freq_hz)).flatten(),
    ).lemma_flatten_and_flatten_alt_are_equivalent();
}

/// On a machine with clusters there are as many frequencies as its clusters
/// have processors. That of a processor stands behind those of the clusters
/// before its own and of the processors before it.
pub proof fn law_cluster_processors_have_their_places(info: ProcessorInfo, i: int, k: int)
    requires
        0 <= i < info.clusters@.len(),
        0 <= k < info.clusters@[i].cpus@.len(),
    ensures
        info.hz().len() == info.clusters@.map_values(
            |c: Cluster| c.cpus@.len() as int,
        ).fold_left(0int, |sum: int, n: int| sum + n),
        ({
            let at = info.clusters@.take(i).map_values(
                |c: Cluster| c.cpus@.len() as int,
            ).fold_left(0int, |sum: int, n: int| sum + n) + k;
            &&& 0 <= at < info.hz().len()
            &&& info.hz()[at] == info.clusters@[i].cpus@[k].freq_hz
        }),
{
    lemma_clusters_flat(info.clusters@);
    lemma_clusters_flat(info.clusters@.take(i));
    law_every_cluster_is_listed(info.clusters@, i, k);
}

/// On a machine without clusters, that of a processor stands behind those of
/// the packages before its own, of the cores before its own and of the
/// processors before it.
pub proof fn law_package_processors_have_their_places(info: ProcessorInfo, p: int, i: int, k: int)
    requires
        info.clusters@.len() == 0,
        0 <= p < info.packages@.len(),
        0 <= i < info.packages@[p].cores@.len(),
        0 <= k < info.packages@[p].cores@[i].cpus@.len(),
    ensures
        ({
            let earlier = info.packages@.take(p).map_values(
                |p: Package|
                    p.cores@.map_values(
                        |c: Core| c.cpus@.map_values(|u: Cpu| u.freq_hz),
                    ).flatten(),
            ).flatten();
            let own = info.packages@[p].cores@.take(i).map_values(
                |c: Core| c.cpus@.map_values(|u: Cpu| u.freq_hz),
            ).flatten();
            let at = earlier.len() + own.len() + k;
            &&& at < info.hz().len()
            &&& info.hz()[at] == info.packages@[p].cores@[i].cpus@[k].freq_hz
        }),
{
    lemma_packages_flat(info.packages@.take(p));
    lemma_cores_flat(info.packages@[p].cores@.take(i));
    info.packages@.take(p).map_values(
        |p: Package|
            p.cores@.map_values(|c: Core| c.cpus@.map_values(|u: Cpu| u.freq_hz)).flatten(),
    ).lemma_flatten_and_flatten_alt_are_equivalent();
    info.packages@[p].cores@.take(i).map_values(
        |c: Core| c.cpus@.map_values(|u: Cpu| u.freq_hz),
    ).lemma_flatten_and_flatten_alt_are_equivalent();
    law_every_package_is_listed(info.packages@, p, i, k);
}

/// There is just one exit code of success, and it is zero; a command without an
/// exit code has not succeeded.
pub proof fn law_only_zero_is_success(n: i32)
    ensures
        success(Some(n)) <==> !(n < 0) && !(n > 0),
        !success(None),
{
}

/// A machine that has told nothing yet has no frequencies.
pub proof fn law_no_processors_no_frequencies(info: ProcessorInfo)
    requires
        info.clusters@.len() == 0,
        info.packages@.len() == 0,
    ensures
        info.hz().len() == 0,
{
}

} // verus!
