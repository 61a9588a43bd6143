//! Presenting the physical lenses so the user can choose between them.
//!
//! Nothing is decided here. Each lens is annotated with what it would deliver on the symbol in frame:
//! pixels per module, and whether the symbol would still fit. The user picks, with the numbers in
//! front of them.
//!
//! Lengths, shares and pixels per module are single-precision numbers, held as their bit patterns.
use vstd::prelude::*;
use vstd::string::*;
use crate::float::{at_most, float_at_most, float_key, float_less, is_nan, key_of, less, number};
use crate::order::{before, candidates, in_rank_order, rank_order};

verus! {

/// A physical camera module, as the platform reports it.
#[derive(Clone, Debug, PartialEq, Eq)]
pub struct LensSpec {
    /// Physical camera id.
    pub id: String,
    /// Label for the picker: "Ultra-wide", "Main", "5×".
    pub label: String,
    pub focal_length_mm: u32,
    /// Physical sensor width, millimetres.
    pub sensor_width_mm: u32,
    /// Active array width in pixels for the stream being configured.
    pub pixel_width: u32,
    /// Closest focusable distance in metres; zero means fixed-focus or unreported.
    pub min_focus_distance_m: u32,
}

impl LensSpec {
    fn copied(&self) -> (r: Self)
        ensures
            r == *self,
    {
        LensSpec {
            id: self.id.clone(),
            label: self.label.clone(),
            focal_length_mm: self.focal_length_mm,
            sensor_width_mm: self.sensor_width_mm,
            pixel_width: self.pixel_width,
            min_focus_distance_m: self.min_focus_distance_m,
        }
    }
}

/// How a lens would fare on the symbol currently in frame.
#[derive(Clone, Copy, Debug, PartialEq, Eq, Structural)]
pub enum LensStatus {
    /// Comfortable sampling: at or above the target.
    Good,
    /// Decodable, but below the target where occlusion detection gets reliable.
    Marginal,
    /// Below the decode threshold.
    TooCoarse,
    /// The symbol would overflow this lens's field of view, taking its finder patterns with it.
    WouldCrop,
    /// Autofocus could not lock here.
    CannotFocus,
    /// No measurement yet, so nothing can be said.
    Unknown,
}

impl LensStatus {
    /// Whether choosing this lens is likely to produce a decode.
    pub open spec fn spec_is_usable(self) -> bool {
        self == LensStatus::Good || self == LensStatus::Marginal
    }

    pub fn is_usable(self) -> (r: bool)
        ensures
            r == self.spec_is_usable(),
    {
        matches!(self, LensStatus::Good | LensStatus::Marginal)
    }
}

/// What a lens would deliver on the symbol in frame.
#[derive(Clone, Copy, Debug, PartialEq, Eq, Structural)]
pub struct LensReading {
    pub px_per_module: u32,
    /// Share of the frame width the symbol would occupy. Above one it does not fit.
    pub frame_fill: u32,
}

/// One entry in the picker.
#[derive(Clone, Debug, PartialEq, Eq)]
pub struct LensOption {
    pub id: String,
    pub label: String,
    pub focal_length_mm: u32,
    /// Pixels per module this lens would deliver. Zero when unknown.
    pub predicted_px_per_module: u32,
    /// Share of the frame width the symbol would occupy. Zero when unknown.
    pub frame_fill: u32,
    pub status: LensStatus,
    pub is_current: bool,
}

/// Thresholds for annotating the options.
#[derive(Clone, Copy, Debug)]
pub struct PickerParams {
    /// Pixels per module below which decoding is unlikely.
    pub min_px_per_module: u32,
    /// Pixels per module at and above which sampling is comfortable.
    pub target_px_per_module: u32,
    /// Largest share of frame width the symbol may occupy before the lens is flagged
    /// [`LensStatus::WouldCrop`]. Leaves room for hand shake and the quiet zone.
    pub max_frame_fill: u32,
}

impl PickerParams {
    /// Four and six pixels per module, 85 % of the frame.
    pub open spec fn is_default(self) -> bool {
        &&& self.min_px_per_module == 0x4080_0000
        &&& self.target_px_per_module == 0x40C0_0000
        &&& self.max_frame_fill == 0x3F59_999A
    }
}

impl Default for PickerParams {
    fn default() -> (r: Self)
        ensures
            r.is_default(),
            r.min_px_per_module == 0x4080_0000,
            r.target_px_per_module == 0x40C0_0000,
            r.max_frame_fill == 0x3F59_999A,
    {
        PickerParams {
            min_px_per_module: 0x4080_0000,
            target_px_per_module: 0x40C0_0000,
            max_frame_fill: 0x3F59_999A,
        }
    }
}

/// Presents the available lenses, annotated. Chooses nothing.
#[derive(Clone, Debug)]
pub struct LensPicker {
    pub lenses: Vec<LensSpec>,
    pub params: PickerParams,
    pub focus_failed: Vec<String>,
}

/// The focal lengths, as ranking keys.
pub open spec fn focal_keys(lenses: Seq<LensSpec>) -> Seq<Option<i128>> {
    Seq::new(lenses.len(), |i: int| Some(float_key(lenses[i].focal_length_mm) as i128))
}

/// Whether `sorted` holds the lenses in the order of their focal lengths, equal ones as they came.
pub open spec fn is_sorted_from(lenses: Seq<LensSpec>, sorted: Seq<LensSpec>) -> bool {
    exists|order: Seq<usize>| #[trigger]
        in_rank_order(focal_keys(lenses), order) && sorted == Seq::new(
            order.len(),
            |k: int| lenses[order[k] as int],
        )
}

/// Whether a list of ids holds one.
pub open spec fn names(list: Seq<String>, id: Seq<char>) -> bool {
    exists|i: int| 0 <= i < list.len() && #[trigger] list[i]@ == id
}

fn is_named(list: &Vec<String>, id: &String) -> (r: bool)
    ensures
        r == names(list@, id@),
{
    for i in 0..list.len()
        invariant
            forall|k: int| 0 <= k < i ==> #[trigger] list@[k]@ != id@,
    {
        if list[i] == *id {
            assert(list@[i as int]@ == id@);
            return true;
        }
    }
    false
}

/// How a lens fares: a focus failure goes before everything, then what was measured.
pub open spec fn status_of(
    params: PickerParams,
    focus_failed: bool,
    reading: Option<LensReading>,
) -> LensStatus {
    if focus_failed {
        LensStatus::CannotFocus
    } else {
        match reading {
            None => LensStatus::Unknown,
            Some(m) => if float_less(params.max_frame_fill, m.frame_fill) {
                LensStatus::WouldCrop
            } else if float_less(m.px_per_module, params.min_px_per_module) {
                LensStatus::TooCoarse
            } else if float_less(m.px_per_module, params.target_px_per_module) {
                LensStatus::Marginal
            } else {
                LensStatus::Good
            },
        }
    }
}

/// Whether `o` is the entry of a lens.
pub open spec fn is_option(
    lens: LensSpec,
    params: PickerParams,
    focus_failed: bool,
    current: Seq<char>,
    reading: Option<LensReading>,
    o: LensOption,
) -> bool {
    &&& o.id@ == lens.id@
    &&& o.label@ == lens.label@
    &&& o.focal_length_mm == lens.focal_length_mm
    &&& o.predicted_px_per_module == match reading {
        Some(m) => m.px_per_module,
        None => 0,
    }
    &&& o.frame_fill == match reading {
        Some(m) => m.frame_fill,
        None => 0,
    }
    &&& o.status == status_of(params, focus_failed, reading)
    &&& o.is_current == (lens.id@ == current)
}

/// The reading of the lens in a place, where anything was measured.
pub open spec fn reading_at(readings: Option<Seq<LensReading>>, k: int) -> Option<LensReading> {
    match readings {
        Some(list) => Some(list[k]),
        None => None,
    }
}

/// Whether `options` annotates every lens of a picker, in its order.
pub open spec fn annotates(
    picker: LensPicker,
    current: Seq<char>,
    readings: Option<Seq<LensReading>>,
    options: Seq<LensOption>,
) -> bool {
    &&& options.len() == picker.lenses@.len()
    &&& forall|k: int|
        0 <= k < options.len() ==> is_option(
            picker.lenses@[k],
            picker.params,
            names(picker.focus_failed@, picker.lenses@[k].id@),
            current,
            reading_at(readings, k),
            #[trigger] options[k],
        )
}

/// The readings that count: none where nothing was measured, or was measured on a lens that is not one of
/// these.
pub open spec fn readings_that_count(
    picker: LensPicker,
    current: Seq<char>,
    measured: u32,
    readings: Option<Seq<LensReading>>,
) -> Option<Seq<LensReading>> {
    if float_at_most(measured, 0) || forall|j: int|
        0 <= j < picker.lenses@.len() ==> (#[trigger] picker.lenses@[j]).id@ != current {
        None
    } else {
        readings
    }
}

/// Of the first `n` entries, the usable one that samples best; of equal ones the last.
pub open spec fn best_of(options: Seq<LensOption>, n: nat) -> Option<int>
    decreases n,
{
    if n == 0 {
        None
    } else {
        let prior = best_of(options, (n - 1) as nat);
        let o = options[n - 1];
        if !o.status.spec_is_usable() {
            prior
        } else {
            match prior {
                Some(p) => if float_less(
                    o.predicted_px_per_module,
                    options[p].predicted_px_per_module,
                ) {
                    prior
                } else {
                    Some(n - 1)
                },
                None => Some(n - 1),
            }
        }
    }
}

impl LensPicker {
    /// Lenses are held in focal-length order: wide on the left, tele on the right.
    pub fn new(lenses: Vec<LensSpec>, params: PickerParams) -> (r: Self)
        ensures
            is_sorted_from(lenses@, r.lenses@),
            r.lenses@.len() == lenses@.len(),
            r.params == params,
            r.focus_failed@.len() == 0,
    {
        let mut keys: Vec<Option<i128>> = Vec::with_capacity(lenses.len());
        for i in 0..lenses.len()
            invariant
                keys@.len() == i,
                forall|k: int| 0 <= k < i ==> #[trigger] keys@[k] == focal_keys(lenses@)[k],
        {
            keys.push(Some(key_of(lenses[i].focal_length_mm) as i128));
        }
        assert(keys@ =~= focal_keys(lenses@));
        let order = rank_order(keys.as_slice());
        proof {
            assert(candidates(keys@) =~= vstd::set_lib::set_int_range(0, lenses@.len() as int));
            vstd::set_lib::lemma_int_range(0, lenses@.len() as int);
        }
        let mut sorted: Vec<LensSpec> = Vec::with_capacity(order.len());
        for k in 0..order.len()
            invariant
                in_rank_order(focal_keys(lenses@), order@),
                sorted@.len() == k,
                forall|j: int| 0 <= j < k ==> #[trigger] sorted@[j] == lenses@[order@[j] as int],
        {
            assert(order@[k as int] < focal_keys(lenses@).len());
            sorted.push(lenses[order[k]].copied());
        }
        assert(sorted@ =~= Seq::new(order@.len(), |k: int| lenses@[order@[k] as int]));
        LensPicker { lenses: sorted, params, focus_failed: Vec::new() }
    }

    pub fn lenses(&self) -> (r: &[LensSpec])
        ensures
            r@ == self.lenses@,
    {
        self.lenses.as_slice()
    }

    /// Where the lens in use stands, if it is one of these: the first that has the id.
    pub fn place_of(&self, id: &str) -> (r: Option<usize>)
        ensures
            match r {
                Some(k) => k < self.lenses@.len() && self.lenses@[k as int].id@ == id@ && forall|
                    j: int,
                |
                    0 <= j < k ==> (#[trigger] self.lenses@[j]).id@ != id@,
                None => forall|j: int|
                    0 <= j < self.lenses@.len() ==> (#[trigger] self.lenses@[j]).id@ != id@,
            },
    {
        let wanted = String::from_str(id);
        for i in 0..self.lenses.len()
            invariant
                wanted@ == id@,
                forall|j: int| 0 <= j < i ==> (#[trigger] self.lenses@[j]).id@ != id@,
        {
            if self.lenses[i].id == wanted {
                return Some(i);
            }
        }
        None
    }

    /// Records that autofocus could not lock on a lens, so that the picker can say *why* it is a poor
    /// choice right now. Recording it twice changes nothing.
    pub fn note_focus_failure(&mut self, id: &str)
        ensures
            final(self).lenses == old(self).lenses,
            final(self).params == old(self).params,
            forall|other: Seq<char>|
                names(final(self).focus_failed@, other) <==> names(old(self).focus_failed@, other)
                    || other == id@,
            names(old(self).focus_failed@, id@) ==> final(self).focus_failed@ == old(
                self).focus_failed@,
    {
        let id = String::from_str(id);
        let ghost before = self.focus_failed@;
        let ghost named = id@;
        if !is_named(&self.focus_failed, &id) {
            self.focus_failed.push(id);
            proof {
                let after = self.focus_failed@;
                assert forall|other: Seq<char>| names(after, other) <==> names(before, other)
                    || other == named by {
                    if names(before, other) {
                        let i = choose|i: int| 0 <= i < before.len() && #[trigger] before[i]@ == other;
                        assert(after[i]@ == other);
                    }
                    if other == named {
                        assert(after[before.len() as int]@ == other);
                    }
                    if names(after, other) {
                        let i = choose|i: int| 0 <= i < after.len() && #[trigger] after[i]@ == other;
                        if i < before.len() {
                            assert(before[i]@ == other);
                        }
                    }
                }
            }
        }
    }

    /// Clears focus failures: on a successful decode, or when the symbol is lost and reacquired.
    pub fn clear_focus_failures(&mut self)
        ensures
            final(self).lenses == old(self).lenses,
            final(self).params == old(self).params,
            final(self).focus_failed@.len() == 0,
            forall|other: Seq<char>| !names(final(self).focus_failed@, other),
    {
        self.focus_failed = Vec::new();
    }

    /// Annotates every lens for the symbol currently in frame, in focal-length order.
    ///
    /// `current_id` is the lens in use, `measured_px_per_module` what was measured on it, zero when nothing
    /// has been measured yet. `readings` holds what each lens would deliver by that measurement. Without a
    /// measurement, and on a lens that is not one of these, every option comes back
    /// [`LensStatus::Unknown`], which is honest rather than invented.
    pub fn options(
        &self,
        current_id: &str,
        measured_px_per_module: u32,
        readings: Option<&[LensReading]>,
    ) -> (r: Vec<LensOption>)
        requires
            readings is Some ==> readings->0@.len() == self.lenses@.len(),
        ensures
            annotates(
                *self,
                current_id@,
                readings_that_count(
                    *self,
                    current_id@,
                    measured_px_per_module,
                    match readings {
                        Some(list) => Some(list@),
                        None => None,
                    },
                ),
                r@,
            ),
    {
        let current = String::from_str(current_id);
        let known: bool = match self.place_of(current_id) {
            Some(k) => {
                assert(self.lenses@[k as int].id@ == current_id@);
                true
            },
            None => false,
        };
        let ghost given = match readings {
            Some(list) => Some(list@),
            None => None,
        };
        let readings: Option<&[LensReading]> = if known && !at_most(measured_px_per_module, 0) {
            readings
        } else {
            None
        };
        let ghost seen = match readings {
            Some(list) => Some(list@),
            None => None,
        };
        assert(seen == readings_that_count(*self, current_id@, measured_px_per_module, given));
        let mut out: Vec<LensOption> = Vec::with_capacity(self.lenses.len());
        for k in 0..self.lenses.len()
            invariant
                current@ == current_id@,
                readings is Some ==> readings->0@.len() == self.lenses@.len(),
                seen == (match readings {
                    Some(list) => Some(list@),
                    None => None,
                }),
                out@.len() == k,
                forall|j: int|
                    0 <= j < k ==> is_option(
                        self.lenses@[j],
                        self.params,
                        names(self.focus_failed@, self.lenses@[j].id@),
                        current_id@,
                        reading_at(seen, j),
                        #[trigger] out@[j],
                    ),
        {
            let lens = &self.lenses[k];
            let reading: Option<LensReading> = match readings {
                Some(list) => Some(list[k]),
                None => None,
            };
            let status = self.status(lens, reading);
            let (predicted, frame_fill): (u32, u32) = match reading {
                Some(m) => (m.px_per_module, m.frame_fill),
                None => (0, 0),
            };
            out.push(
                LensOption {
                    id: lens.id.clone(),
                    label: lens.label.clone(),
                    focal_length_mm: lens.focal_length_mm,
                    predicted_px_per_module: predicted,
                    frame_fill,
                    status,
                    is_current: lens.id == current,
                },
            );
        }
        out
    }

    fn status(&self, lens: &LensSpec, reading: Option<LensReading>) -> (r: LensStatus)
        ensures
            r == status_of(self.params, names(self.focus_failed@, lens.id@), reading),
    {
        if is_named(&self.focus_failed, &lens.id) {
            return LensStatus::CannotFocus;
        }
        match reading {
            None => LensStatus::Unknown,
            Some(m) => if less(self.params.max_frame_fill, m.frame_fill) {
                LensStatus::WouldCrop
            } else if less(m.px_per_module, self.params.min_px_per_module) {
                LensStatus::TooCoarse
            } else if less(m.px_per_module, self.params.target_px_per_module) {
                LensStatus::Marginal
            } else {
                LensStatus::Good
            },
        }
    }

    /// The lens that would sample the symbol best, for the UI to *highlight*.
    ///
    /// Advisory only: nothing calls this to change lenses. None when no lens is usable.
    pub fn suggestion(&self, options: &[LensOption]) -> (r: Option<String>)
        ensures
            match best_of(options@, options@.len()) {
                Some(k) => r is Some && r->0@ == options@[k].id@,
                None => r is None,
            },
    {
        let mut best: Option<usize> = None;
        for i in 0..options.len()
            invariant
                match best {
                    Some(k) => k < i && best_of(options@, i as nat) == Some(k as int),
                    None => best_of(options@, i as nat) is None,
                },
        {
            if options[i].status.is_usable() {
                best = match best {
                    Some(k) => if less(
                        options[i].predicted_px_per_module,
                        options[k].predicted_px_per_module,
                    ) {
                        Some(k)
                    } else {
                        Some(i)
                    },
                    None => Some(i),
                };
            }
        }
        match best {
            Some(k) => Some(options[k].id.clone()),
            None => None,
        }
    }
}

// ---- laws ----
/// The picker shows the lenses from wide to tele, all of them and nothing else.
pub proof fn law_lenses_run_from_wide_to_tele(
    lenses: Seq<LensSpec>,
    sorted: Seq<LensSpec>,
    a: int,
    b: int,
)
    requires
        is_sorted_from(lenses, sorted),
        0 <= a < b < sorted.len(),
    ensures
        float_key(sorted[a].focal_length_mm) <= float_key(sorted[b].focal_length_mm),
        number(sorted[a].focal_length_mm) <= number(sorted[b].focal_length_mm),
        sorted.len() == lenses.len(),
        lenses.contains(sorted[a]),
        forall|i: int| 0 <= i < lenses.len() ==> sorted.contains(#[trigger] lenses[i]),
{
    let keys = focal_keys(lenses);
    let order = choose|order: Seq<usize>| #[trigger]
        in_rank_order(keys, order) && sorted == Seq::new(
            order.len(),
            |k: int| lenses[order[k] as int],
        );
    assert(before(keys, order[a] as int, order[b] as int));
    crate::float::law_patterns_compare_as_numbers(
        sorted[b].focal_length_mm,
        sorted[a].focal_length_mm,
    );
    assert(lenses[order[a] as int] == sorted[a]);
    assert(candidates(keys) =~= vstd::set_lib::set_int_range(0, lenses.len() as int));
    vstd::set_lib::lemma_int_range(0, lenses.len() as int);
    assert forall|i: int| 0 <= i < lenses.len() implies sorted.contains(#[trigger] lenses[i]) by {
        assert(candidates(keys).contains(i));
        let k = choose|k: int| 0 <= k < order.len() && order[k] == i;
        assert(sorted[k] == lenses[i]);
    }
}

/// Without a measurement, and on a lens that is not one of these, nothing is claimed: every lens that has
/// not failed to focus is unknown.
pub proof fn law_without_a_measurement_nothing_is_claimed(
    picker: LensPicker,
    current: Seq<char>,
    measured: u32,
    readings: Option<Seq<LensReading>>,
    options: Seq<LensOption>,
    k: int,
)
    requires
        annotates(
            picker,
            current,
            readings_that_count(picker, current, measured, readings),
            options,
        ),
        float_at_most(measured, 0) || readings is None || forall|j: int|
            0 <= j < picker.lenses@.len() ==> (#[trigger] picker.lenses@[j]).id@ != current,
        0 <= k < options.len(),
    ensures
        options[k].predicted_px_per_module == 0,
        options[k].frame_fill == 0,
        options[k].status == if names(picker.focus_failed@, picker.lenses@[k].id@) {
            LensStatus::CannotFocus
        } else {
            LensStatus::Unknown
        },
        !options[k].status.spec_is_usable(),
        best_of(options, options.len()) is None,
{
    let all = options.len();
    assert forall|j: int| 0 <= j < all implies !(#[trigger] options[j]).status.spec_is_usable() by {}
    lemma_nothing_usable(options, all);
}

proof fn lemma_nothing_usable(options: Seq<LensOption>, n: nat)
    requires
        n <= options.len(),
        forall|j: int| 0 <= j < n ==> !(#[trigger] options[j]).status.spec_is_usable(),
    ensures
        best_of(options, n) is None,
    decreases n,
{
    if n > 0 {
        lemma_nothing_usable(options, (n - 1) as nat);
        assert(!options[n - 1].status.spec_is_usable());
    }
}

/// A lens that cannot focus is reported, not hidden: it keeps its entry, and is never suggested.
pub proof fn law_focus_failures_are_reported(
    picker: LensPicker,
    current: Seq<char>,
    readings: Option<Seq<LensReading>>,
    options: Seq<LensOption>,
    k: int,
)
    requires
        annotates(picker, current, readings, options),
        0 <= k < picker.lenses@.len(),
        names(picker.focus_failed@, picker.lenses@[k].id@),
    ensures
        options[k].id@ == picker.lenses@[k].id@,
        options[k].status == LensStatus::CannotFocus,
        best_of(options, options.len()) != Some(k),
{
    assert(is_option(
        picker.lenses@[k],
        picker.params,
        true,
        current,
        reading_at(readings, k),
        options[k],
    ));
    law_suggestions_are_the_best_usable(options, options.len());
}

/// A suggestion is usable, and no usable lens samples better; there is one exactly where some lens is
/// usable.
pub proof fn law_suggestions_are_the_best_usable(options: Seq<LensOption>, n: nat)
    requires
        n <= options.len(),
    ensures
        best_of(options, n) is Some ==> 0 <= best_of(options, n)->0 < n
            && options[best_of(options, n)->0].status.spec_is_usable(),
        best_of(options, n) is None <==> forall|j: int|
            0 <= j < n ==> !(#[trigger] options[j]).status.spec_is_usable(),
        (forall|j: int| 0 <= j < n ==> !is_nan(#[trigger] options[j].predicted_px_per_module))
            ==> forall|j: int|
            0 <= j < n && (#[trigger] options[j]).status.spec_is_usable() ==> !float_less(
                options[best_of(options, n)->0].predicted_px_per_module,
                options[j].predicted_px_per_module,
            ),
    decreases n,
{
    if n > 0 {
        law_suggestions_are_the_best_usable(options, (n - 1) as nat);
        assert(best_of(options, n) is None ==> !options[n - 1].status.spec_is_usable());
        if options[n - 1].status.spec_is_usable() {
            assert(best_of(options, n) is Some);
        }
    }
}

/// A status says what the numbers say. A lens that failed to focus says so whatever was measured, and one of
/// which nothing was measured is unknown. Of the others one crops when the symbol would take up more of the
/// frame than it may; the rest are too coarse below the least sampling, marginal below the comfortable, and
/// good from there on.
pub proof fn law_statuses_say_what_the_numbers_say(
    params: PickerParams,
    focus_failed: bool,
    m: LensReading,
)
    requires
        !is_nan(params.min_px_per_module),
        !is_nan(params.target_px_per_module),
        !is_nan(params.max_frame_fill),
        !is_nan(m.px_per_module),
        !is_nan(m.frame_fill),
    ensures
        focus_failed ==> status_of(params, focus_failed, Some(m)) == LensStatus::CannotFocus
            && status_of(params, focus_failed, None) == LensStatus::CannotFocus,
        !focus_failed ==> status_of(params, focus_failed, None) == LensStatus::Unknown,
        !focus_failed ==> ({
            let status = status_of(params, focus_failed, Some(m));
            let fits = number(m.frame_fill) <= number(params.max_frame_fill);
            let (px, least, target) = (
                number(m.px_per_module),
                number(params.min_px_per_module),
                number(params.target_px_per_module),
            );
            &&& status == LensStatus::WouldCrop <==> !fits
            &&& status == LensStatus::TooCoarse <==> fits && px < least
            &&& status == LensStatus::Marginal <==> fits && least <= px < target
            &&& status == LensStatus::Good <==> fits && px >= least && px >= target
            &&& status != LensStatus::Unknown && status != LensStatus::CannotFocus
        }),
        status_of(params, focus_failed, Some(m)).spec_is_usable() <==> !focus_failed && number(
            m.frame_fill,
        ) <= number(params.max_frame_fill) && number(m.px_per_module) >= number(
            params.min_px_per_module,
        ),
{
    crate::float::law_patterns_compare_as_numbers(params.max_frame_fill, m.frame_fill);
    crate::float::law_patterns_compare_as_numbers(m.px_per_module, params.min_px_per_module);
    crate::float::law_patterns_compare_as_numbers(m.px_per_module, params.target_px_per_module);
}

/// Every entry describes its own lens: the id, the label and the focal length are the lens's, what it would
/// deliver is what its reading says, and the one in use is marked.
pub proof fn law_options_describe_their_lenses(
    picker: LensPicker,
    current: Seq<char>,
    measured: u32,
    readings: Seq<LensReading>,
    options: Seq<LensOption>,
    k: int,
)
    requires
        annotates(
            picker,
            current,
            readings_that_count(picker, current, measured, Some(readings)),
            options,
        ),
        0 <= k < picker.lenses@.len(),
    ensures
        options.len() == picker.lenses@.len(),
        options[k].id@ == picker.lenses@[k].id@,
        options[k].label@ == picker.lenses@[k].label@,
        options[k].focal_length_mm == picker.lenses@[k].focal_length_mm,
        options[k].is_current <==> picker.lenses@[k].id@ == current,
        number(measured) > 0 && !is_nan(measured) && (exists|j: int|
            0 <= j < picker.lenses@.len() && (#[trigger] picker.lenses@[j]).id@ == current) ==> {
            &&& options[k].predicted_px_per_module == readings[k].px_per_module
            &&& options[k].frame_fill == readings[k].frame_fill
            &&& options[k].status == status_of(
                picker.params,
                names(picker.focus_failed@, picker.lenses@[k].id@),
                Some(readings[k]),
            )
        },
{
    crate::float::law_patterns_compare_as_numbers(measured, 0);
    assert(number(0) == 0);
    let option = options[k];
}

/// The suggestion is the usable lens that samples best, and of equally good ones the last.
pub proof fn law_suggestions_sample_best(options: Seq<LensOption>, n: nat, j: int)
    requires
        n <= options.len(),
        0 <= j < n,
        options[j].status.spec_is_usable(),
        forall|i: int| 0 <= i < n ==> !is_nan(#[trigger] options[i].predicted_px_per_module),
    ensures
        best_of(options, n) is Some,
        ({
            let best = best_of(options, n)->0;
            &&& 0 <= best < n
            &&& options[best].status == LensStatus::Good || options[best].status
                == LensStatus::Marginal
            &&& number(options[j].predicted_px_per_module) <= number(
                options[best].predicted_px_per_module,
            )
            &&& j > best ==> number(options[j].predicted_px_per_module) < number(
                options[best].predicted_px_per_module,
            )
        }),
    decreases n,
{
    law_suggestions_are_the_best_usable(options, n);
    let m = (n - 1) as nat;
    law_suggestions_are_the_best_usable(options, m);
    let best = best_of(options, n)->0;
    crate::float::law_patterns_compare_as_numbers(
        options[best].predicted_px_per_module,
        options[j].predicted_px_per_module,
    );
    crate::float::law_patterns_compare_as_numbers(
        options[j].predicted_px_per_module,
        options[best].predicted_px_per_module,
    );
    if j < n - 1 {
        law_suggestions_sample_best(options, m, j);
    }
}

} // verus!
