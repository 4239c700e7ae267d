//! The tally of a scan: what the records of one or more walks add up to.

use crate::dirutils::{FileSize, Record};
use crate::stats::{
    buckets_wf, counted_in, first_fit, initial_buckets, total_count, total_sum, Histogram,
};
use vstd::prelude::*;

verus! {

/// The histogram's ceilings: 1, 10 and 100 times each of KiB, MiB, GiB and
/// TiB, ascending.
pub open spec fn scan_ceilings() -> Seq<u64> {
    seq![
        1024u64,
        10240u64,
        102400u64,
        1048576u64,
        10485760u64,
        104857600u64,
        1073741824u64,
        10737418240u64,
        107374182400u64,
        1099511627776u64,
        10995116277760u64,
        109951162777600u64,
    ]
}

/// The ceilings that a scan sorts sizes by.
pub fn size_ceilings() -> (r: Vec<u64>)
    ensures
        r@ == scan_ceilings(),
{
    let mut r: Vec<u64> = Vec::new();
    let mut unit: u64 = 1024;
    let mut i: usize = 0;
    while i < 4
        invariant
            i <= 4,
            unit == if i == 0 {
                1024u64
            } else if i == 1 {
                1048576u64
            } else if i == 2 {
                1073741824u64
            } else if i == 3 {
                1099511627776u64
            } else {
                1125899906842624u64
            },
            r@ == scan_ceilings().take(3 * i as int),
        decreases 4 - i,
    {
        r.push(unit);
        r.push(unit * 10);
        r.push(unit * 100);
        unit = unit * 1024;
        i = i + 1;
        assert(r@ =~= scan_ceilings().take(3 * i as int));
    }
    assert(r@ =~= scan_ceilings());
    r
}

/// The running tally of a scan: the sizes of the files found, sorted into a
/// histogram, how many paths failed, and the smallest and largest file.
pub struct Scan {
    pub hist: Histogram,
    pub errors: u64,
    pub smallest: Option<FileSize>,
    pub largest: Option<FileSize>,
}

/// Whether `scan` can count `record` without overflowing a counter.
pub open spec fn has_room(scan: &Scan, record: &Record) -> bool {
    match record {
        Ok(file) => total_count(scan.hist@) < u32::MAX && total_sum(scan.hist@) + file.size
            <= u64::MAX,
        Err(_) => scan.errors < u64::MAX,
    }
}

impl Scan {
    /// An empty tally over the histogram with `ceilings`.
    pub fn new(ceilings: &[u64]) -> (r: Self)
        ensures
            r.hist@ == initial_buckets(ceilings@),
            buckets_wf(r.hist@),
            total_count(r.hist@) == 0,
            total_sum(r.hist@) == 0,
            r.errors == 0,
            r.smallest is None,
            r.largest is None,
    {
        Scan { hist: Histogram::new(ceilings), errors: 0, smallest: None, largest: None }
    }

    /// Whether `record` can be counted without overflowing a counter.
    pub fn can_add(&self, record: &Record) -> (r: bool)
        requires
            buckets_wf(self.hist@),
        ensures
            r == has_room(self, record),
    {
        match record {
            Ok(file) => {
                let count = self.hist.count();
                let sum = self.hist.sum();
                count < u32::MAX && sum <= u64::MAX - file.size
            },
            Err(_) => self.errors < u64::MAX,
        }
    }

    /// Counts `record`: a file's size goes into the histogram, and the file
    /// becomes the smallest where none smaller (or equal) came before, and the
    /// largest where none larger (or equal) came before; a failure is counted.
    pub fn add(&mut self, record: &Record)
        requires
            buckets_wf(old(self).hist@),
            has_room(old(self), record),
        ensures
            buckets_wf(final(self).hist@),
            match record {
                Ok(file) => {
                    &&& exists|i: int|
                        first_fit(old(self).hist@, file.size, i) && final(self).hist@ == counted_in(
                            old(self).hist@,
                            file.size,
                            i,
                        )
                    &&& total_count(final(self).hist@) == total_count(old(self).hist@) + 1
                    &&& total_sum(final(self).hist@) == total_sum(old(self).hist@) + file.size
                    &&& final(self).errors == old(self).errors
                    &&& final(self).smallest == match old(self).smallest {
                        Some(s) if s.size <= file.size => Some(s),
                        _ => Some(*file),
                    }
                    &&& final(self).largest == match old(self).largest {
                        Some(l) if l.size >= file.size => Some(l),
                        _ => Some(*file),
                    }
                },
                Err(_) => {
                    &&& final(self).hist@ == old(self).hist@
                    &&& final(self).errors == old(self).errors + 1
                    &&& final(self).smallest == old(self).smallest
                    &&& final(self).largest == old(self).largest
                },
            },
    {
        match record {
            Ok(file) => {
                self.hist.add(file.size);
                let smaller = match &self.smallest {
                    Some(s) => file.size < s.size,
                    None => true,
                };
                if smaller {
                    self.smallest = Some(FileSize::new(file.path.clone(), file.size));
                }
                let larger = match &self.largest {
                    Some(l) => file.size > l.size,
                    None => true,
                };
                if larger {
                    self.largest = Some(FileSize::new(file.path.clone(), file.size));
                }
            },
            Err(_) => {
                self.errors = self.errors + 1;
            },
        }
    }
}

} // verus!
