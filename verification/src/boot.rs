//! Bring-up of the harts.
//!
//! Every hart walks through the same phases. Shared counters and flags hold
//! the harts back at three barriers: until all have entered, until the
//! primary hart has set up what all of them use, and until all have
//! activated their page tables. What a hart does in a phase is an access to
//! a counter or a piece of set-up that the caller performs; what the access
//! gave decides the hart's next phase.
use vstd::prelude::*;
use crate::arch::riscv::plic::{init_plic, Plic};
use crate::consts::{layout_fits, DTB_ADDR, HV_MEM_POOL_SIZE, MAX_CPU_NUM, PER_CPU_SIZE};
use crate::devicetree::DeviceTree;
use crate::error::HvError;
use crate::memory::frame::FrameAllocator;
use crate::memory::mm::{inserted_all, MemoryRegion, MemorySet};
use crate::memory::paging::{root_available, Stage};
use crate::memory::{host_regions, init_frame_allocator, init_hv_page_table};
use crate::percpu::PerCpu;
use crate::zone::{cpus_bound, guest_regions, harts_known, names_hart, zone_create, Zone};

verus! {

/// Where a hart stands in bring-up.
#[derive(Clone, Copy, Debug, PartialEq, Eq, Structural)]
pub enum BootPhase {
    /// About to try to become the primary hart.
    Elect,
    /// About to count itself as entered.
    Enter,
    /// Primary only: about to start the other harts.
    Wake,
    /// Waiting until every hart has entered.
    WaitEntered,
    /// Primary only: about to set up what all harts share.
    EarlyInit,
    /// Secondary only: waiting until the shared set-up is done.
    WaitEarlyOk,
    /// About to activate its page tables and count itself as initialised.
    PerCpuInit,
    /// Waiting until every hart is initialised.
    WaitInited,
    /// About to prepare its registers for the guest.
    CpuInit,
    /// Primary only: about to announce that bring-up is over.
    LateInit,
    /// Secondary only: waiting for that announcement.
    WaitLateOk,
    /// Running its guest.
    Run,
}

/// A hart in bring-up: its phase, and whether it is the primary hart.
#[derive(Clone, Copy, Debug, PartialEq, Eq, Structural)]
pub struct HartBoot {
    pub phase: BootPhase,
    pub is_primary: bool,
}

/// What a hart does in its phase.
#[derive(Clone, Copy, Debug, PartialEq, Eq, Structural)]
pub enum BootAction {
    /// Replace the master id by the hart's own id if it is still unset, and
    /// observe 1 if that happened, else 0.
    ElectMaster,
    /// Add one to the count of harts that have entered.
    CountEntered,
    /// Start every other hart.
    WakeSecondaries,
    /// Observe the count of harts that have entered.
    LoadEntered,
    /// Set up the shared state, then set the flag that says so.
    PrimaryInitEarly,
    /// Observe the flag of the shared set-up.
    LoadEarlyOk,
    /// Activate the page tables, then add one to the count of harts that
    /// are initialised.
    PerCpuInit,
    /// Observe the count of harts that are initialised.
    LoadInited,
    /// Prepare the registers for the guest.
    CpuInit,
    /// Set the flag that says bring-up is over.
    PrimaryInitLate,
    /// Observe the flag that says bring-up is over.
    LoadLateOk,
    /// Enter the guest.
    RunVm,
}

/// The action of each phase.
pub open spec fn action_of(phase: BootPhase) -> BootAction {
    match phase {
        BootPhase::Elect => BootAction::ElectMaster,
        BootPhase::Enter => BootAction::CountEntered,
        BootPhase::Wake => BootAction::WakeSecondaries,
        BootPhase::WaitEntered => BootAction::LoadEntered,
        BootPhase::EarlyInit => BootAction::PrimaryInitEarly,
        BootPhase::WaitEarlyOk => BootAction::LoadEarlyOk,
        BootPhase::PerCpuInit => BootAction::PerCpuInit,
        BootPhase::WaitInited => BootAction::LoadInited,
        BootPhase::CpuInit => BootAction::CpuInit,
        BootPhase::LateInit => BootAction::PrimaryInitLate,
        BootPhase::WaitLateOk => BootAction::LoadLateOk,
        BootPhase::Run => BootAction::RunVm,
    }
}

/// Whether a hart that waits on a counter or flag that reads `value` goes
/// on waiting: it does as long as the value is below `max_value`.
pub open spec fn still_waiting(value: u32, max_value: u32) -> bool {
    value < max_value
}

/// The hart after its action, where the action gave `observed`. A waiting
/// hart stays in its phase until what it observes lets it pass.
pub open spec fn next_hart(hart: HartBoot, observed: u32) -> HartBoot {
    match hart.phase {
        BootPhase::Elect => HartBoot { phase: BootPhase::Enter, is_primary: observed == 1 },
        BootPhase::Enter => HartBoot {
            phase: if hart.is_primary {
                BootPhase::Wake
            } else {
                BootPhase::WaitEntered
            },
            ..hart
        },
        BootPhase::Wake => HartBoot { phase: BootPhase::WaitEntered, ..hart },
        BootPhase::WaitEntered => if still_waiting(observed, MAX_CPU_NUM as u32) {
            hart
        } else {
            HartBoot {
                phase: if hart.is_primary {
                    BootPhase::EarlyInit
                } else {
                    BootPhase::WaitEarlyOk
                },
                ..hart
            }
        },
        BootPhase::EarlyInit => HartBoot { phase: BootPhase::PerCpuInit, ..hart },
        BootPhase::WaitEarlyOk => if still_waiting(observed, 1) {
            hart
        } else {
            HartBoot { phase: BootPhase::PerCpuInit, ..hart }
        },
        BootPhase::PerCpuInit => HartBoot { phase: BootPhase::WaitInited, ..hart },
        BootPhase::WaitInited => if still_waiting(observed, MAX_CPU_NUM as u32) {
            hart
        } else {
            HartBoot { phase: BootPhase::CpuInit, ..hart }
        },
        BootPhase::CpuInit => HartBoot {
            phase: if hart.is_primary {
                BootPhase::LateInit
            } else {
                BootPhase::WaitLateOk
            },
            ..hart
        },
        BootPhase::LateInit => HartBoot { phase: BootPhase::Run, ..hart },
        BootPhase::WaitLateOk => if still_waiting(observed, 1) {
            hart
        } else {
            HartBoot { phase: BootPhase::Run, ..hart }
        },
        BootPhase::Run => hart,
    }
}

/// Tells a hart that spins on a counter or a flag whether to go on
/// spinning: it does as long as the value read is below `max_value`.
pub fn wait_for_counter(value: u32, max_value: u32) -> (r: bool)
    ensures
        r == still_waiting(value, max_value),
{
    value < max_value
}

impl HartBoot {
    /// A hart as it enters the image.
    pub fn new() -> (r: Self)
        ensures
            r == (HartBoot { phase: BootPhase::Elect, is_primary: false }),
    {
        HartBoot { phase: BootPhase::Elect, is_primary: false }
    }

    /// What the hart does in its phase.
    pub fn action(&self) -> (r: BootAction)
        ensures
            r == action_of(self.phase),
    {
        match self.phase {
            BootPhase::Elect => BootAction::ElectMaster,
            BootPhase::Enter => BootAction::CountEntered,
            BootPhase::Wake => BootAction::WakeSecondaries,
            BootPhase::WaitEntered => BootAction::LoadEntered,
            BootPhase::EarlyInit => BootAction::PrimaryInitEarly,
            BootPhase::WaitEarlyOk => BootAction::LoadEarlyOk,
            BootPhase::PerCpuInit => BootAction::PerCpuInit,
            BootPhase::WaitInited => BootAction::LoadInited,
            BootPhase::CpuInit => BootAction::CpuInit,
            BootPhase::LateInit => BootAction::PrimaryInitLate,
            BootPhase::WaitLateOk => BootAction::LoadLateOk,
            BootPhase::Run => BootAction::RunVm,
        }
    }

    /// The hart after its action, where the action gave `observed`.
    pub fn next(self, observed: u32) -> (r: Self)
        ensures
            r == next_hart(self, observed),
    {
        let primary = self.is_primary;
        match self.phase {
            BootPhase::Elect => HartBoot { phase: BootPhase::Enter, is_primary: observed == 1 },
            BootPhase::Enter => HartBoot {
                phase: if primary {
                    BootPhase::Wake
                } else {
                    BootPhase::WaitEntered
                },
                is_primary: primary,
            },
            BootPhase::Wake => HartBoot { phase: BootPhase::WaitEntered, is_primary: primary },
            BootPhase::WaitEntered => if wait_for_counter(observed, MAX_CPU_NUM as u32) {
                self
            } else {
                HartBoot {
                    phase: if primary {
                        BootPhase::EarlyInit
                    } else {
                        BootPhase::WaitEarlyOk
                    },
                    is_primary: primary,
                }
            },
            BootPhase::EarlyInit => HartBoot { phase: BootPhase::PerCpuInit, is_primary: primary },
            BootPhase::WaitEarlyOk => if wait_for_counter(observed, 1) {
                self
            } else {
                HartBoot { phase: BootPhase::PerCpuInit, is_primary: primary }
            },
            BootPhase::PerCpuInit => HartBoot { phase: BootPhase::WaitInited, is_primary: primary },
            BootPhase::WaitInited => if wait_for_counter(observed, MAX_CPU_NUM as u32) {
                self
            } else {
                HartBoot { phase: BootPhase::CpuInit, is_primary: primary }
            },
            BootPhase::CpuInit => HartBoot {
                phase: if primary {
                    BootPhase::LateInit
                } else {
                    BootPhase::WaitLateOk
                },
                is_primary: primary,
            },
            BootPhase::LateInit => HartBoot { phase: BootPhase::Run, is_primary: primary },
            BootPhase::WaitLateOk => if wait_for_counter(observed, 1) {
                self
            } else {
                HartBoot { phase: BootPhase::Run, is_primary: primary }
            },
            BootPhase::Run => self,
        }
    }
}

/// The harts that the primary hart `this_id` starts: every hart of the
/// machine but itself, in ascending order.
pub open spec fn secondaries(this_id: usize) -> Seq<usize> {
    all_harts().filter(other_than(this_id))
}

/// The test that picks every hart but `this_id`.
pub open spec fn other_than(this_id: usize) -> spec_fn(usize) -> bool {
    |id: usize| id != this_id
}

/// The ids of the machine's harts, in ascending order.
pub open spec fn all_harts() -> Seq<usize> {
    Seq::new(MAX_CPU_NUM as nat, |i: int| i as usize)
}

/// Lists the harts that the primary hart `this_id` is to start.
pub fn wakeup_secondary_cpus(this_id: usize) -> (r: Vec<usize>)
    ensures
        r@ == secondaries(this_id),
{
    let mut out: Vec<usize> = Vec::new();
    let mut cpu_id: usize = 0;
    let ghost keep = other_than(this_id);
    let ghost all = all_harts();
    assert(all.take(0) =~= Seq::<usize>::empty());
    while cpu_id < MAX_CPU_NUM
        invariant
            cpu_id <= MAX_CPU_NUM,
            keep == other_than(this_id),
            all == all_harts(),
            out@ == all.take(cpu_id as int).filter(keep),
        decreases MAX_CPU_NUM - cpu_id,
    {
        proof {
            crate::zone::lemma_filter_push(all.take(cpu_id as int), cpu_id, keep);
            assert(all.take(cpu_id as int).push(cpu_id) =~= all.take(cpu_id + 1));
        }
        if cpu_id != this_id {
            out.push(cpu_id);
        }
        cpu_id = cpu_id + 1;
    }
    assert(all.take(MAX_CPU_NUM as int) =~= all);
    out
}

/// The page tables that a hart puts into use.
#[derive(Clone, Copy, Debug, PartialEq, Eq, Structural)]
pub struct Tables {
    /// Whether the hypervisor's own table is activated.
    pub host: bool,
    /// The zone whose table is activated, if any.
    pub guest: Option<usize>,
}

/// Tells which page tables a hart activates: the hypervisor's own in any
/// case, and that of its zone if it is bound to one.
pub fn per_cpu_init(cpu: &PerCpu) -> (r: Tables)
    ensures
        r == (Tables { host: true, guest: cpu.zone }),
{
    Tables { host: true, guest: cpu.zone }
}

/// The machine in bring-up, as far as the barriers see it: the shared
/// counters and flags, and every hart's phase.
pub struct BootState {
    /// How many harts have counted themselves as entered.
    pub entered: nat,
    /// How many harts have counted themselves as initialised.
    pub inited: nat,
    /// Whether the shared set-up is done.
    pub init_early_ok: bool,
    /// Whether bring-up is over.
    pub init_late_ok: bool,
    /// The primary hart, once one is elected.
    pub master_cpu: Option<int>,
    pub harts: Seq<HartBoot>,
}

/// How far a phase is along the way.
pub open spec fn rank(phase: BootPhase) -> nat {
    match phase {
        BootPhase::Elect => 0,
        BootPhase::Enter => 1,
        BootPhase::Wake => 2,
        BootPhase::WaitEntered => 3,
        BootPhase::EarlyInit => 4,
        BootPhase::WaitEarlyOk => 4,
        BootPhase::PerCpuInit => 5,
        BootPhase::WaitInited => 6,
        BootPhase::CpuInit => 7,
        BootPhase::LateInit => 8,
        BootPhase::WaitLateOk => 8,
        BootPhase::Run => 9,
    }
}

/// How many of `harts` are further along than `r`.
pub open spec fn count_past(harts: Seq<HartBoot>, r: nat) -> nat
    decreases harts.len(),
{
    if harts.len() == 0 {
        0
    } else {
        count_past(harts.drop_last(), r) + if rank(harts.last().phase) > r {
            1nat
        } else {
            0nat
        }
    }
}

/// The machine before any hart has done anything.
pub open spec fn boot_start() -> BootState {
    BootState {
        entered: 0,
        inited: 0,
        init_early_ok: false,
        init_late_ok: false,
        master_cpu: None,
        harts: Seq::new(MAX_CPU_NUM as nat, |i: int| HartBoot { phase: BootPhase::Elect, is_primary: false }),
    }
}

/// What hart `i` observes when it does its action in state `s`.
pub open spec fn observed(s: BootState, i: int) -> u32 {
    match s.harts[i].phase {
        BootPhase::Elect => if s.master_cpu is None {
            1
        } else {
            0
        },
        BootPhase::WaitEntered => s.entered as u32,
        BootPhase::WaitEarlyOk => if s.init_early_ok {
            1
        } else {
            0
        },
        BootPhase::WaitInited => s.inited as u32,
        BootPhase::WaitLateOk => if s.init_late_ok {
            1
        } else {
            0
        },
        _ => 0,
    }
}

/// The machine after hart `i` has done the action of its phase, as one
/// step: the shared counters and flags change as the action says, and the
/// hart moves on as what it observed lets it.
pub open spec fn boot_step(s: BootState, i: int) -> BootState {
    let hart = s.harts[i];
    let after = next_hart(hart, observed(s, i));
    BootState {
        entered: if hart.phase == BootPhase::Enter {
            s.entered + 1
        } else {
            s.entered
        },
        inited: if hart.phase == BootPhase::PerCpuInit {
            s.inited + 1
        } else {
            s.inited
        },
        init_early_ok: s.init_early_ok || hart.phase == BootPhase::EarlyInit,
        init_late_ok: s.init_late_ok || hart.phase == BootPhase::LateInit,
        master_cpu: if hart.phase == BootPhase::Elect && s.master_cpu is None {
            Some(i)
        } else {
            s.master_cpu
        },
        harts: s.harts.update(i, after),
    }
}

/// What holds of the machine in every state that bring-up can reach.
pub open spec fn boot_inv(s: BootState) -> bool {
    &&& s.harts.len() == MAX_CPU_NUM
    &&& s.entered == count_past(s.harts, 1)
    &&& s.inited == count_past(s.harts, 5)
    &&& s.master_cpu matches Some(m) ==> 0 <= m < s.harts.len() && s.harts[m].is_primary
    &&& forall|i: int|
        0 <= i < s.harts.len() ==> {
            let h = #[trigger] s.harts[i];
            &&& h.is_primary ==> s.master_cpu == Some(i)
            &&& h.phase != BootPhase::Elect ==> s.master_cpu is Some
            &&& h.phase == BootPhase::Elect ==> !h.is_primary
            &&& (h.phase == BootPhase::Wake || h.phase == BootPhase::EarlyInit || h.phase
                == BootPhase::LateInit) ==> h.is_primary
            &&& (h.phase == BootPhase::WaitEarlyOk || h.phase == BootPhase::WaitLateOk)
                ==> !h.is_primary
            &&& rank(h.phase) > 3 ==> s.entered == MAX_CPU_NUM
            &&& rank(h.phase) > 4 ==> s.init_early_ok
            &&& rank(h.phase) > 6 ==> s.inited == MAX_CPU_NUM
            &&& h.phase == BootPhase::Run ==> s.init_late_ok
        }
}

/// No more harts are past a phase than there are harts.
pub proof fn lemma_count_bound(harts: Seq<HartBoot>, r: nat)
    ensures
        count_past(harts, r) <= harts.len(),
    decreases harts.len(),
{
    if harts.len() > 0 {
        lemma_count_bound(harts.drop_last(), r);
    }
}

/// Moving one hart changes the count by what that hart contributes.
pub proof fn lemma_count_update(harts: Seq<HartBoot>, i: int, h: HartBoot, r: nat)
    requires
        0 <= i < harts.len(),
    ensures
        count_past(harts.update(i, h), r) + (if rank(harts[i].phase) > r {
            1nat
        } else {
            0nat
        }) == count_past(harts, r) + (if rank(h.phase) > r {
            1nat
        } else {
            0nat
        }),
    decreases harts.len(),
{
    let after = harts.update(i, h);
    if i == harts.len() - 1 {
        assert(after.drop_last() =~= harts.drop_last());
    } else {
        lemma_count_update(harts.drop_last(), i, h, r);
        assert(after.drop_last() =~= harts.drop_last().update(i, h));
    }
}

/// Where one hart is not past a phase, fewer harts are than there are
/// harts.
pub proof fn lemma_count_strict(harts: Seq<HartBoot>, i: int, r: nat)
    requires
        0 <= i < harts.len(),
        rank(harts[i].phase) <= r,
    ensures
        count_past(harts, r) < harts.len(),
    decreases harts.len(),
{
    if i == harts.len() - 1 {
        lemma_count_bound(harts.drop_last(), r);
    } else {
        lemma_count_strict(harts.drop_last(), i, r);
    }
}

/// Before any hart has done anything, none is past any phase.
pub proof fn lemma_count_start(harts: Seq<HartBoot>, r: nat)
    requires
        forall|i: int| 0 <= i < harts.len() ==> (#[trigger] harts[i]).phase == BootPhase::Elect,
    ensures
        count_past(harts, r) == 0,
    decreases harts.len(),
{
    if harts.len() > 0 {
        lemma_count_start(harts.drop_last(), r);
    }
}

/// The invariant holds before any hart has done anything.
pub proof fn lemma_boot_start_inv()
    ensures
        boot_inv(boot_start()),
{
    lemma_count_start(boot_start().harts, 1);
    lemma_count_start(boot_start().harts, 5);
}

/// Whatever hart does its action next, the invariant is kept: so it holds
/// in every interleaving of the harts.
pub proof fn lemma_boot_step_inv(s: BootState, i: int)
    requires
        boot_inv(s),
        0 <= i < s.harts.len(),
    ensures
        boot_inv(boot_step(s, i)),
{
    let t = boot_step(s, i);
    let hart = s.harts[i];
    let after = t.harts[i];
    lemma_count_update(s.harts, i, after, 1);
    lemma_count_update(s.harts, i, after, 5);
    lemma_count_bound(s.harts, 1);
    lemma_count_bound(s.harts, 5);
    assert forall|j: int| 0 <= j < t.harts.len() implies {
        let h = #[trigger] t.harts[j];
        &&& h.is_primary ==> t.master_cpu == Some(j)
        &&& h.phase != BootPhase::Elect ==> t.master_cpu is Some
        &&& h.phase == BootPhase::Elect ==> !h.is_primary
        &&& (h.phase == BootPhase::Wake || h.phase == BootPhase::EarlyInit || h.phase
            == BootPhase::LateInit) ==> h.is_primary
        &&& (h.phase == BootPhase::WaitEarlyOk || h.phase == BootPhase::WaitLateOk)
            ==> !h.is_primary
        &&& rank(h.phase) > 3 ==> t.entered == MAX_CPU_NUM
        &&& rank(h.phase) > 4 ==> t.init_early_ok
        &&& rank(h.phase) > 6 ==> t.inited == MAX_CPU_NUM
        &&& h.phase == BootPhase::Run ==> t.init_late_ok
    } by {
        if j != i {
            assert(t.harts[j] == s.harts[j]);
            if rank(s.harts[j].phase) > 3 && hart.phase == BootPhase::Enter {
                lemma_count_strict(s.harts, i, 1);
            }
            if rank(s.harts[j].phase) > 6 && hart.phase == BootPhase::PerCpuInit {
                lemma_count_strict(s.harts, i, 5);
            }
        } else {
            assert(t.harts[j] == next_hart(hart, observed(s, i)));
            assert(s.entered <= MAX_CPU_NUM && s.inited <= MAX_CPU_NUM);
            if hart.phase == BootPhase::Enter {
                lemma_count_strict(s.harts, i, 1);
            }
            if hart.phase == BootPhase::PerCpuInit {
                lemma_count_strict(s.harts, i, 5);
            }
        }
    }
    if t.master_cpu is Some {
        let m = t.master_cpu->0;
        if m != i {
            assert(t.harts[m] == s.harts[m]);
        }
    }
}

/// What the barriers give, in every state that bring-up can reach: at most
/// one hart is primary, and as soon as any hart is past the election exactly
/// one is; a hart that activates its page tables or is further along finds
/// the shared set-up done; and a hart that prepares its registers for the
/// guest or is further along finds every hart initialised.
pub proof fn lemma_boot_barriers(s: BootState)
    requires
        boot_inv(s),
    ensures
        forall|i: int, j: int|
            0 <= i < s.harts.len() && 0 <= j < s.harts.len() && s.harts[i].is_primary
                && s.harts[j].is_primary ==> i == j,
        forall|i: int|
            0 <= i < s.harts.len() && (#[trigger] s.harts[i]).phase != BootPhase::Elect
                ==> exists|m: int| 0 <= m < s.harts.len() && s.harts[m].is_primary,
        forall|i: int|
            0 <= i < s.harts.len() && rank((#[trigger] s.harts[i]).phase) >= 5 ==> s.init_early_ok,
        forall|i: int|
            0 <= i < s.harts.len() && rank((#[trigger] s.harts[i]).phase) >= 7 ==> s.inited
                == MAX_CPU_NUM,
        forall|i: int|
            0 <= i < s.harts.len() && rank((#[trigger] s.harts[i]).phase) >= 4 ==> s.entered
                == MAX_CPU_NUM,
{
    assert forall|i: int|
        0 <= i < s.harts.len() && (#[trigger] s.harts[i]).phase != BootPhase::Elect implies exists|
        m: int,
    | 0 <= m < s.harts.len() && s.harts[m].is_primary by {
        let m = s.master_cpu->0;
        assert(s.harts[m].is_primary);
    }
}

/// A guest as it lies in the image: where its kernel and its device tree
/// are in the host's memory, and what the tree says.
#[derive(Debug)]
pub struct GuestImage {
    pub image_paddr: u64,
    pub dtb_paddr: u64,
    pub tree: DeviceTree,
}

/// What the primary hart sets up for all harts.
pub struct Hypervisor {
    /// The allocator of the frame pool.
    pub frames: FrameAllocator,
    /// The hypervisor's own memory set.
    pub hv_pt: MemorySet,
    /// The model of the interrupt controller.
    pub plic: Plic,
    /// The zones, each at the index that is its id.
    pub zones: Vec<Zone>,
}

/// Why the primary hart's set-up failed, with the frame pool as the
/// failure left it.
pub struct InitFailure {
    pub error: HvError,
    pub frames: FrameAllocator,
}

/// What becomes of an empty memory set when the regions of the guest are
/// put into it.
pub open spec fn guest_outcome(guest: &GuestImage) -> Result<Seq<MemoryRegion>, HvError> {
    inserted_all(
        Seq::empty(),
        guest_regions(&guest.tree, guest.image_paddr, guest.dtb_paddr, DTB_ADDR),
        Stage::Stage2,
    )
}

/// What becomes of an empty memory set when the regions of the host are put
/// into it.
pub open spec fn host_outcome(host: &DeviceTree) -> Result<Seq<MemoryRegion>, HvError> {
    inserted_all(Seq::empty(), host_regions(host), Stage::Stage1)
}

/// Whether `zone` is the zone with id `vmid` that is made for `guest`: its
/// memory set holds the guest's regions and maps them, and its harts are
/// those that the guest's tree names.
pub open spec fn zone_made(zone: &Zone, guest: &GuestImage, vmid: int) -> bool {
    &&& zone.vmid == vmid
    &&& zone.gpm.wf()
    &&& zone.gpm.stage() == Stage::Stage2
    &&& guest_outcome(guest) == Ok::<Seq<MemoryRegion>, HvError>(zone.gpm.regions())
    &&& zone.cpu_set.wf()
    &&& forall|id: usize| #[trigger] zone.cpu_set.contains(id) <==> names_hart(&guest.tree, id)
}

/// The records `cpus` once the harts of the first `n` guests are told which
/// zone they belong to.
pub open spec fn bound_all(cpus: Seq<PerCpu>, guests: Seq<GuestImage>, n: nat) -> Seq<PerCpu>
    decreases n,
{
    if n == 0 {
        cpus
    } else {
        cpus_bound(bound_all(cpus, guests, (n - 1) as nat), &guests[n - 1].tree, (n - 1) as usize)
    }
}

/// Whether the primary hart can set up the machine from these answers: the
/// image leaves room for the per-CPU array and the frame pool, the trees
/// answer what is asked of them, the host's tree has an interrupt
/// controller, and the guests' trees name harts that there are records for.
pub open spec fn can_init(
    core_end: u64,
    host: &DeviceTree,
    guests: Seq<GuestImage>,
    cpus: Seq<PerCpu>,
) -> bool {
    &&& layout_fits(core_end)
    &&& core_end + MAX_CPU_NUM * PER_CPU_SIZE + HV_MEM_POOL_SIZE + 2 * 4096 <= u64::MAX
    &&& host.usable()
    &&& host.plic@.len() >= 1
    &&& host.plic@[0] is Some
    &&& forall|i: int|
        0 <= i < guests.len() ==> (#[trigger] guests[i]).tree.usable() && harts_known(
            &guests[i].tree,
            cpus,
        )
}

/// Sets up what all harts share, in this order: the frame allocator for the
/// pool behind an image that ends at `core_end`; the hypervisor's own
/// memory set, from the host's device tree; the model of the interrupt
/// controller, at the first register range of the tree's controller; and a
/// zone for each guest, with the harts that the guest's tree names told so.
/// The first step that fails ends it with its error.
pub fn primary_init_early(
    core_end: u64,
    host: &DeviceTree,
    guests: &Vec<GuestImage>,
    cpus: &mut Vec<PerCpu>,
) -> (r: Result<Hypervisor, InitFailure>)
    requires
        can_init(core_end, host, guests@, old(cpus)@),
    ensures
        final(cpus)@.len() == old(cpus)@.len(),
        host_outcome(host) is Err ==> r is Err,
        forall|i: int| 0 <= i < guests@.len() && guest_outcome(#[trigger] &guests@[i]) is Err ==> r is Err,
        r matches Err(f) ==> f.error == HvError::NoMem || host_outcome(host) == Err::<
            Seq<MemoryRegion>,
            HvError,
        >(f.error) || exists|i: int|
            0 <= i < guests@.len() && guest_outcome(#[trigger] &guests@[i]) == Err::<
                Seq<MemoryRegion>,
                HvError,
            >(f.error),
        r matches Err(f) ==> f.frames.wf() && f.frames.base() == crate::memory::addr::align_up_spec(
            core_end + MAX_CPU_NUM * PER_CPU_SIZE,
        ) && f.frames.page_count() == HV_MEM_POOL_SIZE / 4096 && (f.error == HvError::NoMem
            ==> !root_available(&f.frames, Stage::Stage2)),
        r matches Ok(hv) ==> hv.frames.base() == crate::memory::addr::align_up_spec(
            core_end + MAX_CPU_NUM * PER_CPU_SIZE,
        ) && hv.frames.page_count() == HV_MEM_POOL_SIZE / 4096,
        r matches Ok(hv) ==> {
            &&& hv.frames.wf()
            &&& hv.hv_pt.wf()
            &&& hv.hv_pt.stage() == Stage::Stage1
            &&& hv.hv_pt.table().backed_by(&hv.frames)
            &&& host_outcome(host) == Ok::<Seq<MemoryRegion>, HvError>(hv.hv_pt.regions())
            &&& hv.plic.base == host.plic@[0]->0.start
            &&& hv.plic.size == host.plic@[0]->0.size->0
            &&& forall|c: int| 0 <= c < 64 ==> hv.plic.claim_complete@[c] == 0
            &&& hv.zones@.len() == guests@.len()
            &&& forall|i: int|
                0 <= i < guests@.len() ==> zone_made(#[trigger] &hv.zones@[i], &guests@[i], i)
                    && hv.zones@[i].gpm.table().backed_by(&hv.frames)
            &&& final(cpus)@ == bound_all(old(cpus)@, guests@, guests@.len())
        },
{
    let mut frames = init_frame_allocator(core_end);
    let hv_pt = match init_hv_page_table(host, &mut frames) {
        Ok(set) => set,
        Err(e) => {
            proof {
                crate::memory::paging::lemma_root_needs_pages(&frames);
            }
            return Err(InitFailure { error: e, frames });
        },
    };
    let plic_reg = match host.plic[0] {
        Some(reg) => reg,
        None => {
            return Err(InitFailure { error: HvError::BadParam, frames });
        },
    };
    let plic_size: u64 = match plic_reg.size {
        Some(size) => size,
        None => {
            return Err(InitFailure { error: HvError::BadParam, frames });
        },
    };
    let plic = init_plic(plic_reg.start, plic_size);
    let mut zones: Vec<Zone> = Vec::new();
    let mut vmid: usize = 0;
    while vmid < guests.len()
        invariant
            vmid <= guests@.len(),
            frames.wf(),
            frames.base() == crate::memory::addr::align_up_spec(core_end + MAX_CPU_NUM * PER_CPU_SIZE),
            frames.page_count() == HV_MEM_POOL_SIZE / 4096,
            cpus@.len() == old(cpus)@.len(),
            can_init(core_end, host, guests@, old(cpus)@),
            hv_pt.wf(),
            hv_pt.table().backed_by(&frames),
            zones@.len() == vmid,
            forall|i: int|
                0 <= i < vmid ==> zone_made(#[trigger] &zones@[i], &guests@[i], i)
                    && zones@[i].gpm.table().backed_by(&frames),
            cpus@ == bound_all(old(cpus)@, guests@, vmid as nat),
        decreases guests@.len() - vmid,
    {
        let guest = &guests[vmid];
        let ghost pool_before = frames;
        proof {
            assert(guests@[vmid as int].tree.usable() && harts_known(
                &guests@[vmid as int].tree,
                old(cpus)@,
            ));
        }
        let zone = match zone_create(
            &mut frames,
            cpus,
            vmid,
            guest.image_paddr,
            &guest.tree,
            guest.dtb_paddr,
            DTB_ADDR,
        ) {
            Ok(zone) => zone,
            Err(e) => {
                return Err(InitFailure { error: e, frames });
            },
        };
        let ghost prior = zones@;
        zones.push(zone);
        proof {
            assert forall|i: int| 0 <= i < vmid + 1 implies zone_made(
                #[trigger] &zones@[i],
                &guests@[i],
                i,
            ) && zones@[i].gpm.table().backed_by(&frames) by {
                if i < vmid {
                    assert(zones@[i] == prior[i]);
                    assert(zone_made(&prior[i], &guests@[i], i));
                    assert(prior[i].gpm.table().backed_by(&pool_before));
                }
            }
        }
        vmid = vmid + 1;
    }
    proof {
        assert forall|i: int| 0 <= i < guests@.len() implies guest_outcome(
            #[trigger] &guests@[i],
        ) is Ok by {
            assert(zone_made(&zones@[i], &guests@[i], i));
        }
    }
    Ok(Hypervisor { frames, hv_pt, plic, zones })
}

} // verus!
