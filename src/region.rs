//! Region descriptors as captured from a process, and the small address
//! helpers shared by the rest of the crate.

use vstd::prelude::*;
use vstd::bytes::*;

verus! {

/// First four bytes of an executable image (ELF).
pub const EXE: [u8; 4] = [0x7f, 0x45, 0x4c, 0x46];

/// One mapped range of a process's address space.
#[derive(Clone, Debug)]
pub struct MemoryRegion {
    pub start: usize,
    pub end: usize,
    pub size: usize,
    pub is_read: bool,
    pub is_write: bool,
    pub is_exec: bool,
    pub is_stack: bool,
    pub is_heap: bool,
    /// Backing file, as raw path bytes.
    pub path: Option<Vec<u8>>,
    pub name: Vec<u8>,
}

/// `p` is the directory `dir` itself or a path below it (component-wise).
pub open spec fn path_under(p: Seq<u8>, dir: Seq<u8>) -> bool {
    p == dir || (p.len() > dir.len() && p.subrange(0, dir.len() as int) == dir
        && p[dir.len() as int] == 0x2f)
}

pub open spec fn dev_dir() -> Seq<u8> {
    seq![0x2fu8, 0x64u8, 0x65u8, 0x76u8]
}

pub open spec fn usr_dir() -> Seq<u8> {
    seq![0x2fu8, 0x75u8, 0x73u8, 0x72u8]
}

impl MemoryRegion {
    /// A region is well formed when it is non-empty and its size matches its bounds.
    pub open spec fn wf(&self) -> bool {
        self.start < self.end && self.size == self.end - self.start
    }

    /// Worth opening the backing file to look for an executable header:
    /// readable, file-backed, and not under `/dev` or `/usr`.
    pub open spec fn spec_exe_candidate(&self) -> bool {
        self.is_read && self.path.is_some() && !path_under(self.path.unwrap()@, dev_dir())
            && !path_under(self.path.unwrap()@, usr_dir())
    }

    pub fn new(
        start: usize,
        end: usize,
        is_read: bool,
        is_write: bool,
        is_exec: bool,
        is_stack: bool,
        is_heap: bool,
        path: Option<Vec<u8>>,
        name: Vec<u8>,
    ) -> (r: Self)
        requires
            start < end,
        ensures
            r.wf(),
            r.start == start,
            r.end == end,
            r.is_read == is_read,
            r.is_write == is_write,
            r.is_exec == is_exec,
            r.is_stack == is_stack,
            r.is_heap == is_heap,
            r.path == path,
            r.name == name,
    {
        MemoryRegion {
            start,
            end,
            size: end - start,
            is_read,
            is_write,
            is_exec,
            is_stack,
            is_heap,
            path,
            name,
        }
    }

    pub fn is_exe_candidate(&self) -> (r: bool)
        ensures
            r == self.spec_exe_candidate(),
    {
        if !self.is_read {
            return false;
        }
        match &self.path {
            None => false,
            Some(p) => {
                let dev: [u8; 4] = [0x2f, 0x64, 0x65, 0x76];
                let usr: [u8; 4] = [0x2f, 0x75, 0x73, 0x72];
                assert(dev@ == dev_dir());
                assert(usr@ == usr_dir());
                !is_path_under(p.as_slice(), &dev) && !is_path_under(p.as_slice(), &usr)
            },
        }
    }

    /// Whether the region is backed by an executable image. `header` holds the
    /// first four bytes of the backing file, or `None` where it could not be read.
    pub fn is_exe(&self, header: Option<[u8; 4]>) -> (r: bool)
        ensures
            r == (self.spec_exe_candidate() && header.is_some() && header.unwrap()@ == EXE@),
    {
        if !self.is_exe_candidate() {
            return false;
        }
        match header {
            None => false,
            Some(h) => {
                let exe = EXE;
                let same = h[0] == exe[0] && h[1] == exe[1] && h[2] == exe[2] && h[3] == exe[3];
                proof {
                    if same {
                        assert(h@ =~= EXE@);
                    }
                }
                same
            },
        }
    }
}

fn is_path_under(p: &[u8], dir: &[u8; 4]) -> (r: bool)
    ensures
        r == path_under(p@, dir@),
{
    if p.len() < 4 {
        return false;
    }
    let mut i: usize = 0;
    while i < 4
        invariant
            p@.len() >= 4,
            i <= 4,
            forall|j: int| 0 <= j < i ==> p@[j] == dir@[j],
        decreases 4 - i,
    {
        if p[i] != dir[i] {
            assert(p@.subrange(0, 4)[i as int] != dir@[i as int]);
            return false;
        }
        i = i + 1;
    }
    assert(p@.subrange(0, 4) =~= dir@);
    if p.len() == 4 {
        assert(p@ =~= dir@);
        true
    } else {
        p[4] == 0x2f
    }
}

/// Little-endian value of eight bytes, as an address.
pub open spec fn le_usize(s: Seq<u8>) -> usize {
    spec_u64_from_le_bytes(s) as usize
}

/// Reads an address from exactly eight little-endian bytes.
pub fn bytes_to_usize(buf: &[u8]) -> (r: Result<usize, String>)
    ensures
        buf@.len() == 8 <==> r.is_ok(),
        r.is_ok() ==> r.unwrap() == le_usize(buf@),
{
    if buf.len() != 8 {
        return Err("could not convert slice to array".to_string());
    }
    Ok(u64_from_le_bytes(buf) as usize)
}

/// `u + i` where it is an address, else `None`.
pub open spec fn spec_wrap_add(u: usize, i: i16) -> Option<usize> {
    if 0 <= u + i <= usize::MAX {
        Some((u + i) as usize)
    } else {
        None
    }
}

/// Adds a signed offset to an address, refusing to wrap around.
pub fn wrap_add(u: usize, i: i16) -> (r: Option<usize>)
    ensures
        r == spec_wrap_add(u, i),
{
    if i < 0 {
        let m: usize = (0 - (i as i32)) as usize;
        u.checked_sub(m)
    } else {
        u.checked_add(i as usize)
    }
}


/// Which regions a scan takes: only readable ones, and of those the ones the
/// switches allow.
#[derive(Clone, Copy, Debug)]
pub struct RegionFilter {
    pub require_write: bool,
    pub allow_stack: bool,
    pub require_path: bool,
}

impl RegionFilter {
    pub open spec fn keeps(&self, r: MemoryRegion) -> bool {
        &&& r.is_read
        &&& self.require_write ==> r.is_write
        &&& !self.allow_stack ==> !r.is_stack
        &&& self.require_path ==> r.path.is_some()
    }

    pub fn accepts(&self, r: &MemoryRegion) -> (b: bool)
        ensures
            b == self.keeps(*r),
    {
        r.is_read && (!self.require_write || r.is_write) && (self.allow_stack || !r.is_stack) && (
        !self.require_path || r.path.is_some())
    }

    /// The positions, in ascending order, of the regions this filter keeps.
    pub fn select(&self, regions: &Vec<MemoryRegion>) -> (r: Vec<usize>)
        ensures
            forall|k: int| 0 <= k < r@.len() ==> r@[k] < regions@.len() && self.keeps(regions@[r@[k] as int]),
            forall|k: int, l: int| 0 <= k < l < r@.len() ==> r@[k] < r@[l],
            forall|i: int| 0 <= i < regions@.len() && self.keeps(#[trigger] regions@[i]) ==> r@.contains(i as usize),
    {
        let mut r: Vec<usize> = Vec::new();
        let mut i: usize = 0;
        while i < regions.len()
            invariant
                i <= regions@.len(),
                forall|k: int| 0 <= k < r@.len() ==> r@[k] < i && self.keeps(regions@[r@[k] as int]),
                forall|k: int, l: int| 0 <= k < l < r@.len() ==> r@[k] < r@[l],
                forall|j: int| 0 <= j < i && self.keeps(#[trigger] regions@[j]) ==> r@.contains(j as usize),
            decreases regions@.len() - i,
        {
            if self.accepts(&regions[i]) {
                let ghost before = r@;
                r.push(i);
                assert forall|j: int| 0 <= j < i + 1 && self.keeps(#[trigger] regions@[j]) implies r@.contains(j as usize) by {
                    if j < i {
                        let k = choose|k: int| 0 <= k < before.len() && before[k] == j as usize;
                        assert(r@[k] == j as usize);
                    } else {
                        assert(r@[r@.len() - 1] == j as usize);
                    }
                }
            }
            i = i + 1;
        }
        r
    }
}

} // verus!
