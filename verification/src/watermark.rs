//! Watermarks that tables report, kept per epoch.

use vstd::prelude::*;
use crate::sstable::copy_bytes;

verus! {

/// The watermark that a table reported at one epoch.
#[derive(Debug, Default, PartialEq, Eq)]
pub struct EpochWatermark {
    pub epoch: u64,
    pub watermark: Vec<u8>,
}

/// Mathematical value of an [`EpochWatermark`].
#[verifier::ext_equal]
pub struct EpochWatermarkView {
    pub epoch: u64,
    pub watermark: Seq<u8>,
}

impl View for EpochWatermark {
    type V = EpochWatermarkView;

    open spec fn view(&self) -> EpochWatermarkView {
        EpochWatermarkView { epoch: self.epoch, watermark: self.watermark@ }
    }
}

impl Clone for EpochWatermark {
    fn clone(&self) -> (r: Self)
        ensures
            r@ == self@,
    {
        EpochWatermark { epoch: self.epoch, watermark: copy_bytes(&self.watermark) }
    }
}

/// The watermark history of one table, oldest first.
#[derive(Debug, Default, PartialEq, Eq)]
pub struct TableWatermarks {
    pub watermarks: Vec<EpochWatermark>,
    pub is_ascending: bool,
}

/// Mathematical value of a [`TableWatermarks`].
#[verifier::ext_equal]
pub struct WatermarksView {
    pub watermarks: Seq<EpochWatermarkView>,
    pub is_ascending: bool,
}

impl View for TableWatermarks {
    type V = WatermarksView;

    open spec fn view(&self) -> WatermarksView {
        WatermarksView {
            watermarks: self.watermarks@.map_values(|w: EpochWatermark| w@),
            is_ascending: self.is_ascending,
        }
    }
}

/// The test that a watermark passes while its epoch is not below
/// `safe_epoch`.
pub open spec fn is_fresh(safe_epoch: u64) -> spec_fn(EpochWatermarkView) -> bool {
    |w: EpochWatermarkView| w.epoch >= safe_epoch
}

impl WatermarksView {
    /// The history with the watermarks of `newly_added` behind its own.
    pub open spec fn appended(self, newly_added: WatermarksView) -> WatermarksView {
        WatermarksView { watermarks: self.watermarks + newly_added.watermarks, ..self }
    }

    /// The history without the watermarks of epochs below `safe_epoch`.
    pub open spec fn without_stale(self, safe_epoch: u64) -> WatermarksView {
        WatermarksView { watermarks: self.watermarks.filter(is_fresh(safe_epoch)), ..self }
    }
}

/// The values of a list of watermarks.
pub open spec fn epoch_watermarks_view(s: Seq<EpochWatermark>) -> Seq<EpochWatermarkView> {
    s.map_values(|w: EpochWatermark| w@)
}

impl Clone for TableWatermarks {
    fn clone(&self) -> (r: Self)
        ensures
            r@ == self@,
    {
        let mut watermarks: Vec<EpochWatermark> = Vec::new();
        let mut i: usize = 0;
        while i < self.watermarks.len()
            invariant
                i <= self.watermarks.len(),
                watermarks.len() == i,
                forall|j: int| 0 <= j < i ==> watermarks[j]@ == self.watermarks[j]@,
            decreases self.watermarks.len() - i,
        {
            watermarks.push(self.watermarks[i].clone());
            i += 1;
        }
        let r = TableWatermarks { watermarks, is_ascending: self.is_ascending };
        assert(r@.watermarks =~= self@.watermarks);
        r
    }
}

impl TableWatermarks {
    /// Puts the watermarks of `newly_added` behind the history.
    pub fn apply_new_table_watermarks(&mut self, newly_added: &TableWatermarks)
        ensures
            final(self)@ == old(self)@.appended(newly_added@),
    {
        let ghost before = self@.watermarks;
        let mut i: usize = 0;
        while i < newly_added.watermarks.len()
            invariant
                i <= newly_added.watermarks.len(),
                self.is_ascending == old(self).is_ascending,
                self@.watermarks == before + newly_added@.watermarks.subrange(0, i as int),
                before == old(self)@.watermarks,
            decreases newly_added.watermarks.len() - i,
        {
            let ghost prev = self@.watermarks;
            let w = newly_added.watermarks[i].clone();
            let ghost wv = w@;
            self.watermarks.push(w);
            assert(self@.watermarks =~= prev.push(wv));
            assert(wv == newly_added@.watermarks[i as int]);
            assert(self@.watermarks =~= before + newly_added@.watermarks.subrange(0, i + 1));
            i += 1;
        }
        assert(newly_added@.watermarks.subrange(0, i as int) =~= newly_added@.watermarks);
    }

    /// Drops the watermarks of epochs below `safe_epoch`.
    pub fn clear_stale_epoch_watermark(&mut self, safe_epoch: u64)
        ensures
            final(self)@ == old(self)@.without_stale(safe_epoch),
    {
        let ghost orig = self@.watermarks;
        let mut all: Vec<EpochWatermark> = Vec::new();
        core::mem::swap(&mut self.watermarks, &mut all);
        let ghost vs = all@;
        let mut kept: Vec<EpochWatermark> = Vec::new();
        proof {
            crate::ordered::lemma_filter_empty::<EpochWatermarkView>(is_fresh(safe_epoch));
            assert(orig.subrange(0, 0) =~= Seq::<EpochWatermarkView>::empty());
        }
        for x in it: all
            invariant
                it.seq() == vs,
                orig == epoch_watermarks_view(vs),
                epoch_watermarks_view(kept@) == orig.subrange(0, it.index() as int).filter(
                    is_fresh(safe_epoch),
                ),
        {
            proof {
                let i = it.index();
                assert(orig[i] == x@);
                assert(orig.subrange(0, i + 1) =~= orig.subrange(0, i).push(x@));
                crate::ordered::lemma_filter_push(orig.subrange(0, i), x@, is_fresh(safe_epoch));
            }
            if x.epoch >= safe_epoch {
                let ghost before = epoch_watermarks_view(kept@);
                let ghost xv = x@;
                kept.push(x);
                assert(epoch_watermarks_view(kept@) =~= before.push(xv));
            }
        }
        assert(orig.subrange(0, orig.len() as int) =~= orig);
        self.watermarks = kept;
    }
}

} // verus!
