use vstd::prelude::*;

verus! {

/// The queue kinds a device is created with.
#[derive(Clone, Copy, Debug, PartialEq, Eq, Structural)]
pub enum QueueKind {
    Graphics,
    Compute,
    Transfer,
}

/// What a queue family supports.
#[derive(Clone, Copy, Debug, PartialEq, Eq, Structural)]
pub struct QueueCaps {
    pub graphics: bool,
    pub compute: bool,
    pub transfer: bool,
}

/// Whether a family is taken for `kind`: any graphics family for graphics,
/// a compute family without graphics for compute, and a transfer family with
/// neither for transfer.
pub open spec fn serves(caps: QueueCaps, kind: QueueKind) -> bool {
    match kind {
        QueueKind::Graphics => caps.graphics,
        QueueKind::Compute => !caps.graphics && caps.compute,
        QueueKind::Transfer => !caps.graphics && !caps.compute && caps.transfer,
    }
}

/// Some family of `families` serves `kind`.
pub open spec fn has_family(families: Seq<QueueCaps>, kind: QueueKind) -> bool {
    exists|i: int| 0 <= i < families.len() && serves(#[trigger] families[i], kind)
}

/// `i` is the first family of `families` that serves `kind`.
pub open spec fn is_first_family(families: Seq<QueueCaps>, kind: QueueKind, i: int) -> bool {
    &&& 0 <= i < families.len()
    &&& serves(families[i], kind)
    &&& forall|j: int| 0 <= j < i ==> !serves(#[trigger] families[j], kind)
}

/// The first physical device that is a discrete GPU, else the first one.
pub open spec fn chosen_device(is_discrete: Seq<bool>) -> int {
    if exists|i: int| 0 <= i < is_discrete.len() && is_discrete[i] {
        choose|i: int| 0 <= i < is_discrete.len() && is_discrete[i] && forall|j: int| 0 <= j < i ==> !is_discrete[j]
    } else {
        0
    }
}

/// Picks the physical device to render with: the first discrete GPU, or the
/// first device when there is none. `is_discrete[i]` tells whether device
/// `i` is a discrete GPU.
pub fn choose_physical_device(is_discrete: &[bool]) -> (r: usize)
    requires
        is_discrete@.len() >= 1,
    ensures
        r < is_discrete@.len(),
        r == chosen_device(is_discrete@),
        is_discrete@[r as int] || forall|j: int| 0 <= j < is_discrete@.len() ==> !is_discrete@[j],
        forall|j: int| 0 <= j < r ==> !is_discrete@[j],
{
    let n = is_discrete.len();
    let mut i: usize = 0;
    while i < n
        invariant
            n == is_discrete@.len(),
            i <= n,
            forall|j: int| 0 <= j < i ==> !is_discrete@[j],
        decreases n - i,
    {
        if is_discrete[i] {
            proof {
                let k = choose|k: int| 0 <= k < is_discrete@.len() && is_discrete@[k] && forall|j: int| 0 <= j < k ==> !is_discrete@[j];
                assert(is_discrete@[i as int]);
                if k < i {
                    assert(!is_discrete@[k]);
                } else if k > i {
                    assert(!is_discrete@[i as int]);
                }
            }
            return i;
        }
        i = i + 1;
    }
    0
}

/// Picks the queue families of the device: the first graphics family, the
/// first compute family without graphics, the first transfer family with
/// neither. A kind without a family is the error, graphics checked first,
/// then compute, then transfer.
pub fn select_queue_families(families: &[QueueCaps]) -> (r: Result<(u32, u32, u32), QueueKind>)
    requires
        families@.len() <= u32::MAX,
    ensures
        match r {
            Ok((g, c, t)) => is_first_family(families@, QueueKind::Graphics, g as int) && is_first_family(
                families@,
                QueueKind::Compute,
                c as int,
            ) && is_first_family(families@, QueueKind::Transfer, t as int),
            Err(QueueKind::Graphics) => !has_family(families@, QueueKind::Graphics),
            Err(QueueKind::Compute) => has_family(families@, QueueKind::Graphics) && !has_family(
                families@,
                QueueKind::Compute,
            ),
            Err(QueueKind::Transfer) => has_family(families@, QueueKind::Graphics) && has_family(
                families@,
                QueueKind::Compute,
            ) && !has_family(families@, QueueKind::Transfer),
        },
{
    let s = Ghost(families@);
    let mut graphics: Option<u32> = None;
    let mut compute: Option<u32> = None;
    let mut transfer: Option<u32> = None;
    let n = families.len();
    let mut i: usize = 0;
    while i < n
        invariant
            n == s@.len(),
            s@ == families@,
            n <= u32::MAX,
            i <= n,
            match graphics {
                Some(g) => is_first_family(s@, QueueKind::Graphics, g as int) && g < i,
                None => forall|j: int| 0 <= j < i ==> !serves(#[trigger] s@[j], QueueKind::Graphics),
            },
            match compute {
                Some(c) => is_first_family(s@, QueueKind::Compute, c as int) && c < i,
                None => forall|j: int| 0 <= j < i ==> !serves(#[trigger] s@[j], QueueKind::Compute),
            },
            match transfer {
                Some(t) => is_first_family(s@, QueueKind::Transfer, t as int) && t < i,
                None => forall|j: int| 0 <= j < i ==> !serves(#[trigger] s@[j], QueueKind::Transfer),
            },
        decreases n - i,
    {
        let caps = families[i];
        if caps.graphics {
            if graphics.is_none() {
                graphics = Some(i as u32);
            }
        } else if caps.compute {
            if compute.is_none() {
                compute = Some(i as u32);
            }
        } else if caps.transfer {
            if transfer.is_none() {
                transfer = Some(i as u32);
            }
        }
        i = i + 1;
    }
    let g = match graphics {
        Some(g) => g,
        None => {
            return Err(QueueKind::Graphics);
        },
    };
    let c = match compute {
        Some(c) => c,
        None => {
            proof {
                assert(has_family(families@, QueueKind::Graphics)) by {
                    assert(serves(families@[g as int], QueueKind::Graphics));
                }
            }
            return Err(QueueKind::Compute);
        },
    };
    let t = match transfer {
        Some(t) => t,
        None => {
            proof {
                assert(serves(families@[g as int], QueueKind::Graphics));
                assert(serves(families@[c as int], QueueKind::Compute));
            }
            return Err(QueueKind::Transfer);
        },
    };
    Ok((g, c, t))
}

} // verus!
