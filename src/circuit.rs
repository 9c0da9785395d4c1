use vstd::prelude::*;

use crate::structure::{
    Signal, PinValue, PinValueModel, Pin, Hitbox, HitboxType, Rect, Point, CircuitError, WireSegment, Wire,
    OUTPUT,
};
use crate::logic_gates::{LogicGate, eval_gate, same_but_value, evaluate, pin_with_value};
use crate::source::Source;
use crate::led::Led;
use crate::connection_logic::{
    group_connected_pins, connected, is_net_partition, lemma_connected_symmetric,
    lemma_connected_transitive, lemma_connected_step,
};

verus! {

/// An element of a circuit. Gates, sources and lamps are built; the other kinds are named for
/// what is to come, and every operation on them reports `CircuitError::Unsupported`.
#[derive(Debug, Clone, PartialEq, Eq)]
pub enum LogicElements {
    Gates(LogicGate),
    Source(Source),
    Leds(Led),
    Clock,
    Adders,
    Multiplexers,
    Demultiplexers,
    ShiftRegisters,
    FlipFlops,
    LatchRegisters,
}

impl LogicElements {
    /// A gate, a source or a lamp.
    pub open spec fn supported(&self) -> bool {
        self is Gates || self is Source || self is Leds
    }

    pub open spec fn wf(&self) -> bool {
        match self {
            LogicElements::Gates(g) => g.wf(),
            LogicElements::Source(s) => s.wf(),
            LogicElements::Leds(l) => l.wf(),
            _ => true,
        }
    }

    /// The element's pins: a gate's inputs then its output, a source's output, a lamp's input.
    pub open spec fn pins(&self) -> Seq<Pin> {
        match self {
            LogicElements::Gates(g) => g.pins(),
            LogicElements::Source(s) => s.pins(),
            LogicElements::Leds(l) => l.pins(),
            _ => seq![],
        }
    }

    /// The element's id.
    pub fn id(&self) -> (r: usize)
        ensures
            r == self.id_of(),
    {
        match self {
            LogicElements::Gates(g) => g.id,
            LogicElements::Source(s) => s.id,
            LogicElements::Leds(l) => l.id,
            _ => 0,
        }
    }

    pub open spec fn id_of(&self) -> usize {
        match self {
            LogicElements::Gates(g) => g.id,
            LogicElements::Source(s) => s.id,
            LogicElements::Leds(l) => l.id,
            _ => 0,
        }
    }

    /// Sets a gate's inputs; see `LogicGate::set_input`. Other elements take no signals.
    pub fn set_input(&mut self, signal: Vec<Signal>) -> (r: Result<(), CircuitError>)
        requires
            old(self).wf(),
        ensures
            final(self).wf(),
            !(*old(self) is Gates) ==> r == Err::<(), CircuitError>(CircuitError::Unsupported) && *final(self) == *old(self),
            *old(self) is Gates ==> *final(self) is Gates && (signal.len() > (*old(self))->Gates_0.num_input <==> r == Err::<
                (),
                CircuitError,
            >(CircuitError::TooManySignals)),
            *old(self) is Gates && signal.len() <= (*old(self))->Gates_0.num_input ==> r is Ok,
            r is Ok ==> *final(self) is Gates && forall|i: int|
                0 <= i < (*final(self))->Gates_0.input.len() ==> (#[trigger] (*final(self))->Gates_0.input@[i]).value@
                    == PinValueModel::Single(crate::logic_gates::padded(signal@, i)),
            r is Ok ==> (*final(self))->Gates_0.same_shape(&(*old(self))->Gates_0) && (*final(self))->Gates_0.output == (*old(self))->Gates_0.output,
    {
        match self {
            LogicElements::Gates(logic_gate) => logic_gate.set_input(signal),
            _ => Err(CircuitError::Unsupported),
        }
    }

    /// Recomputes the outputs: a gate evaluates its inputs, a source and a lamp have nothing
    /// to compute, the other kinds are not built yet.
    pub fn get_output(&mut self) -> (r: Result<(), CircuitError>)
        requires
            old(self).wf(),
        ensures
            final(self).wf(),
            *old(self) is Source || *old(self) is Leds ==> r is Ok && *final(self) == *old(self),
            !old(self).supported() ==> r == Err::<(), CircuitError>(CircuitError::Unsupported) && *final(self)
                == *old(self),
            *old(self) is Gates ==> *final(self) is Gates && (crate::logic_gates::all_single(old(self)->Gates_0.input@) <==> r is Ok),
            *old(self) is Gates && r is Ok ==> {
                &&& (*final(self))->Gates_0.same_shape(&(*old(self))->Gates_0)
                &&& (*final(self))->Gates_0.input == (*old(self))->Gates_0.input
                &&& (*final(self))->Gates_0.output.value == PinValue::Single(
                    eval_gate(old(self)->Gates_0.kind, crate::logic_gates::signals_of(old(self)->Gates_0.input@)),
                )
            },
            r is Err ==> r == Err::<(), CircuitError>(CircuitError::Unsupported) && *final(self) == *old(self),
    {
        match self {
            LogicElements::Gates(logic_gate) => logic_gate.get_output(),
            LogicElements::Source(_) => Ok(()),
            LogicElements::Leds(_) => Ok(()),
            _ => Err(CircuitError::Unsupported),
        }
    }

    /// The pin with port id `pid` and role `ioc`.
    pub fn get_pin(&self, pid: usize, ioc: usize) -> (r: Result<&Pin, CircuitError>)
        requires
            self.wf(),
        ensures
            !self.supported() ==> r == Err::<&Pin, CircuitError>(CircuitError::Unsupported),
            self.supported() ==> ((exists|i: int|
                0 <= i < self.pins().len() && self.pins()[i].pid == pid && self.pins()[i].ioc == ioc) <==> r is Ok),
            self.supported() && r is Err ==> r == Err::<&Pin, CircuitError>(CircuitError::NoSuchPin),
            r matches Ok(p) ==> p.pid == pid && p.ioc == ioc && self.pins().contains(*p),
    {
        match self {
            LogicElements::Gates(logic_gate) => logic_gate.get_pin(pid, ioc),
            LogicElements::Source(source) => {
                let r = source.get_pin(pid, ioc);
                assert(source.pins()[0] == source.output);
                r
            },
            LogicElements::Leds(led) => {
                let r = led.get_pin(pid, ioc);
                assert(led.pins()[0] == led.input);
                r
            },
            _ => Err(CircuitError::Unsupported),
        }
    }

    /// The rectangle of the element's body.
    pub fn get_hitbox(&self) -> (r: Result<Rect, CircuitError>)
        ensures
            self matches LogicElements::Gates(g) ==> r == Ok::<Rect, CircuitError>(g.hitbox.rect),
            self matches LogicElements::Source(s) ==> r == Ok::<Rect, CircuitError>(s.hitbox.rect),
            self matches LogicElements::Leds(l) ==> r == Ok::<Rect, CircuitError>(l.hitbox.rect),
            !self.supported() ==> r == Err::<Rect, CircuitError>(CircuitError::Unsupported),
    {
        match self {
            LogicElements::Gates(logic_gate) => Ok(logic_gate.hitbox.rect),
            LogicElements::Source(source) => Ok(source.hitbox.rect),
            LogicElements::Leds(led) => Ok(led.hitbox.rect),
            _ => Err(CircuitError::Unsupported),
        }
    }

    /// The hitboxes of the element's pins, in the order of `pins`.
    pub fn get_pins_hitbox(&self) -> (r: Vec<Hitbox>)
        ensures
            r@ == self.pins().map_values(|p: Pin| p.hitbox),
    {
        match self {
            LogicElements::Gates(logic_gate) => logic_gate.gate_pins_hitbox(),
            LogicElements::Source(source) => {
                let r = source.source_pin_hitbox();
                assert(r@ =~= self.pins().map_values(|p: Pin| p.hitbox));
                r
            },
            LogicElements::Leds(led) => {
                let r = led.led_pin_hitbox();
                assert(r@ =~= self.pins().map_values(|p: Pin| p.hitbox));
                r
            },
            _ => {
                let r: Vec<Hitbox> = Vec::new();
                assert(r@ =~= self.pins().map_values(|p: Pin| p.hitbox));
                r
            },
        }
    }

    /// Moves the element to `position`, its pins with it.
    pub fn update_postion(&mut self, new_position: Point) -> (r: Result<(), CircuitError>)
        requires
            old(self).wf(),
            new_position.in_canvas(),
        ensures
            final(self).wf(),
            !old(self).supported() <==> r is Err,
            r is Err ==> r == Err::<(), CircuitError>(CircuitError::Unsupported) && *final(self) == *old(self),
            final(self).id_of() == old(self).id_of(),
            final(self).pins().len() == old(self).pins().len(),
            r is Ok ==> forall|i: int|
                0 <= i < final(self).pins().len() ==> #[trigger] final(self).pins()[i] == old(self).pins()[i].shifted(
                    old(self).position_of(),
                    new_position,
                ),
            r is Ok ==> final(self).position_of() == new_position,
    {
        match self {
            LogicElements::Gates(logic_gate) => {
                let ghost g0 = *logic_gate;
                logic_gate.update_gate_position(new_position);
                proof {
                    assert forall|i: int| 0 <= i < logic_gate.pins().len() implies #[trigger] logic_gate.pins()[i]
                        == g0.pins()[i].shifted(g0.position, new_position) by {
                        if i < logic_gate.input.len() {
                            assert(logic_gate.pins()[i] == logic_gate.input@[i]);
                        }
                    }
                }
                Ok(())
            },
            LogicElements::Source(source) => {
                source.update_source_position(new_position);
                Ok(())
            },
            LogicElements::Leds(led) => {
                led.update_led_position(new_position);
                Ok(())
            },
            _ => Err(CircuitError::Unsupported),
        }
    }

    pub open spec fn position_of(&self) -> Point {
        match self {
            LogicElements::Gates(g) => g.position,
            LogicElements::Source(s) => s.position,
            LogicElements::Leds(l) => l.position,
            _ => Point { x: 0, y: 0 },
        }
    }

    /// Where the element stands.
    pub fn get_position(&self) -> (r: Result<Point, CircuitError>)
        ensures
            self.supported() ==> r == Ok::<Point, CircuitError>(self.position_of()),
            !self.supported() ==> r == Err::<Point, CircuitError>(CircuitError::Unsupported),
    {
        match self {
            LogicElements::Gates(logic_gate) => Ok(logic_gate.position),
            LogicElements::Source(source) => Ok(source.position),
            LogicElements::Leds(led) => Ok(led.position),
            _ => Err(CircuitError::Unsupported),
        }
    }

    /// Where the element's reference pin stands; placement snaps this point to the grid.
    pub fn get_refpin_pos(&self) -> (r: Result<Point, CircuitError>)
        ensures
            self matches LogicElements::Gates(g) ==> r == Ok::<Point, CircuitError>(g.ref_pin_pos),
            self matches LogicElements::Source(s) ==> r == Ok::<Point, CircuitError>(s.ref_pin_pos),
            self matches LogicElements::Leds(l) ==> r == Ok::<Point, CircuitError>(l.ref_pin_pos),
            !self.supported() ==> r == Err::<Point, CircuitError>(CircuitError::Unsupported),
    {
        match self {
            LogicElements::Gates(logic_gate) => Ok(logic_gate.ref_pin_pos),
            LogicElements::Source(source) => Ok(source.ref_pin_pos),
            LogicElements::Leds(led) => Ok(led.ref_pin_pos),
            _ => Err(CircuitError::Unsupported),
        }
    }

    /// The picture that shows the element when it is placed.
    pub fn load_image(&self) -> (r: Result<&'static str, CircuitError>)
        ensures
            self.supported() <==> r is Ok,
            r is Err ==> r == Err::<&'static str, CircuitError>(CircuitError::Unsupported),
            self matches LogicElements::Gates(g) ==> (r matches Ok(p) && p@ == (if g.output.value is Single {
                crate::logic_gates::gate_image_path(g.kind)@
            } else {
                crate::logic_gates::bus_gate_image_path(g.kind)@
            })),
            self matches LogicElements::Source(src) ==> (r matches Ok(p) && p@ == (if src.output.value == PinValue::Single(
                Signal::On,
            ) {
                "/sources/normal/source_high.png"@
            } else {
                "/sources/normal/source_low.png"@
            })),
            self matches LogicElements::Leds(_) ==> (r matches Ok(p) && p@ == "/leds/normal/led_undefined.png"@),
    {
        match self {
            LogicElements::Gates(logic_gate) => Ok(logic_gate.load_gate_image()),
            LogicElements::Source(source) => Ok(source.load_source_image()),
            LogicElements::Leds(led) => Ok(led.load_led_image()),
            _ => Err(CircuitError::Unsupported),
        }
    }

    /// The picture that shows the element as it is now: a lamp shows the signal it receives,
    /// and a lamp on a bus has none.
    pub fn get_image(&self) -> (r: Result<Option<&'static str>, CircuitError>)
        ensures
            self.supported() <==> r is Ok,
            r is Err ==> r == Err::<Option<&'static str>, CircuitError>(CircuitError::Unsupported),
            (self is Gates || self is Source) ==> (r matches Ok(p) && p is Some),
            self matches LogicElements::Leds(l) ==> (r matches Ok(p) && (p is None <==> l.input.value is Multiple)),
    {
        match self {
            LogicElements::Gates(logic_gate) => Ok(Some(logic_gate.load_gate_image())),
            LogicElements::Source(source) => Ok(Some(source.load_source_image())),
            LogicElements::Leds(led) => Ok(led.update_led_image()),
            _ => Err(CircuitError::Unsupported),
        }
    }

    /// Gives the element the id `id`, in itself and in its pins.
    pub fn set_id(&mut self, id: usize) -> (r: Result<(), CircuitError>)
        requires
            old(self).wf(),
        ensures
            final(self).wf(),
            old(self).supported() <==> r is Ok,
            r is Err ==> r == Err::<(), CircuitError>(CircuitError::Unsupported) && *final(self) == *old(self),
            r is Ok ==> final(self).id_of() == id && final(self).supported(),
            renumbered(*old(self), *final(self), id),
            final(self).pins().len() == old(self).pins().len(),
            forall|i: int| 0 <= i < final(self).pins().len() ==> (#[trigger] final(self).pins()[i]).value == old(self).pins()[i].value
                && final(self).pins()[i].ioc == old(self).pins()[i].ioc,
            *old(self) is Gates <==> *final(self) is Gates,
            *old(self) is Source <==> *final(self) is Source,
            *old(self) is Leds <==> *final(self) is Leds,
    {
        match self {
            LogicElements::Gates(logic_gate) => {
                let ghost g0 = *logic_gate;
                logic_gate.set_gate_id(id);
                proof {
                    assert forall|i: int| 0 <= i < logic_gate.pins().len() implies (#[trigger] logic_gate.pins()[i]).value
                        == g0.pins()[i].value && logic_gate.pins()[i].ioc == g0.pins()[i].ioc by {
                        if i < logic_gate.input.len() {
                            assert(logic_gate.pins()[i] == logic_gate.input@[i]);
                            assert(g0.pins()[i] == g0.input@[i]);
                        }
                    }
                }
                Ok(())
            },
            LogicElements::Source(source) => {
                source.set_id(id);
                Ok(())
            },
            LogicElements::Leds(led) => {
                led.set_id(id);
                Ok(())
            },
            _ => Err(CircuitError::Unsupported),
        }
    }
}

impl LogicElements {
    /// How many pins the element has.
    pub fn pin_count(&self) -> (r: usize)
        requires
            self.wf(),
        ensures
            r == self.pins().len(),
    {
        match self {
            LogicElements::Gates(logic_gate) => {
                assert(logic_gate.input.len() < u32::MAX);
                logic_gate.num_input + 1
            },
            LogicElements::Source(_) => 1,
            LogicElements::Leds(_) => 1,
            _ => 0,
        }
    }

    /// Copies of the values of the element's pins, in the order of `pins`.
    pub fn pin_values(&self) -> (r: Vec<PinValue>)
        ensures
            r.len() == self.pins().len(),
            forall|s: int| 0 <= s < r.len() ==> (#[trigger] r@[s])@ == self.pins()[s].value@,
    {
        let mut r: Vec<PinValue> = Vec::new();
        match self {
            LogicElements::Gates(g) => {
                let mut i: usize = 0;
                while i < g.input.len()
                    invariant
                        i <= g.input.len(),
                        r.len() == i,
                        forall|s: int| 0 <= s < i ==> (#[trigger] r@[s])@ == g.input@[s].value@,
                    decreases g.input.len() - i,
                {
                    r.push(g.input[i].value.duplicate());
                    i += 1;
                }
                r.push(g.output.value.duplicate());
                assert forall|s: int| 0 <= s < r.len() implies (#[trigger] r@[s])@ == self.pins()[s].value@ by {
                    if s < g.input.len() {
                        assert(self.pins()[s] == g.input@[s]);
                    }
                }
            },
            LogicElements::Source(src) => {
                r.push(src.output.value.duplicate());
            },
            LogicElements::Leds(led) => {
                r.push(led.input.value.duplicate());
            },
            _ => {},
        }
        r
    }

    /// For each pin of the element, in the order of `pins`, whether it is an output.
    pub fn pin_roles(&self) -> (r: Vec<bool>)
        ensures
            r@ == self.pins().map_values(|p: Pin| p.is_output()),
    {
        let mut r: Vec<bool> = Vec::new();
        match self {
            LogicElements::Gates(g) => {
                let mut i: usize = 0;
                while i < g.input.len()
                    invariant
                        i <= g.input.len(),
                        r@ == g.input@.subrange(0, i as int).map_values(|p: Pin| p.is_output()),
                    decreases g.input.len() - i,
                {
                    r.push(g.input[i].ioc == OUTPUT);
                    i += 1;
                    assert(r@ =~= g.input@.subrange(0, i as int).map_values(|p: Pin| p.is_output()));
                }
                r.push(g.output.ioc == OUTPUT);
                assert(g.input@.subrange(0, i as int) =~= g.input@);
            },
            LogicElements::Source(src) => {
                r.push(src.output.ioc == OUTPUT);
            },
            LogicElements::Leds(led) => {
                r.push(led.input.ioc == OUTPUT);
            },
            _ => {},
        }
        assert(r@ =~= self.pins().map_values(|p: Pin| p.is_output()));
        r
    }
}

/// The pins of all the elements, element after element.
pub open spec fn all_pins(comps: Seq<LogicElements>) -> Seq<Pin>
    decreases comps.len(),
{
    if comps.len() == 0 {
        seq![]
    } else {
        all_pins(comps.drop_last()) + comps.last().pins()
    }
}

/// Where the pins of element `e` begin among all the pins.
pub open spec fn pin_offset(comps: Seq<LogicElements>, e: int) -> int {
    all_pins(comps.take(e)).len() as int
}

/// Pin `s` of element `e` stands at `pin_offset(e) + s` among all the pins.
pub proof fn lemma_all_pins_index(comps: Seq<LogicElements>, e: int, s: int)
    requires
        0 <= e < comps.len(),
        0 <= s < comps[e].pins().len(),
    ensures
        pin_offset(comps, e) + s < all_pins(comps).len(),
        all_pins(comps)[pin_offset(comps, e) + s] == comps[e].pins()[s],
    decreases comps.len(),
{
    let front = comps.drop_last();
    if e == comps.len() - 1 {
        assert(comps.take(e) =~= front);
    } else {
        assert(front.take(e) =~= comps.take(e));
        assert(front[e] == comps[e]);
        lemma_all_pins_index(front, e, s);
    }
}

/// The pins of the first `e + 1` elements are those of the first `e`, then those of element `e`.
pub proof fn lemma_all_pins_take(comps: Seq<LogicElements>, e: int)
    requires
        0 <= e < comps.len(),
    ensures
        all_pins(comps.take(e + 1)) == all_pins(comps.take(e)) + comps[e].pins(),
        pin_offset(comps, e + 1) == pin_offset(comps, e) + comps[e].pins().len(),
{
    assert(comps.take(e + 1).drop_last() =~= comps.take(e));
}

/// Every pin of well-formed elements has a well-formed rectangle and a hitbox tagged with its
/// own address.
pub proof fn lemma_all_pins_wf(comps: Seq<LogicElements>)
    requires
        forall|e: int| 0 <= e < comps.len() ==> (#[trigger] comps[e]).wf(),
    ensures
        forall|k: int|
            0 <= k < all_pins(comps).len() ==> (#[trigger] all_pins(comps)[k]).hitbox.rect.wf() && all_pins(
                comps,
            )[k].tagged(),
    decreases comps.len(),
{
    if comps.len() > 0 {
        let front = comps.drop_last();
        assert forall|e: int| 0 <= e < front.len() implies (#[trigger] front[e]).wf() by {
            assert(front[e] == comps[e]);
        }
        lemma_all_pins_wf(front);
        let last = comps.last();
        assert(last.wf());
        assert forall|s: int| 0 <= s < last.pins().len() implies (#[trigger] last.pins()[s]).hitbox.rect.wf()
            && last.pins()[s].tagged() by {
            match last {
                LogicElements::Gates(g) => {
                    if s < g.input.len() {
                        assert(last.pins()[s] == g.input@[s]);
                    }
                },
                _ => {},
            }
        }
        let all = all_pins(comps);
        assert forall|k: int| 0 <= k < all.len() implies (#[trigger] all[k]).hitbox.rect.wf() && all[k].tagged() by {
            if k < all_pins(front).len() {
                assert(all[k] == all_pins(front)[k]);
            } else {
                assert(all[k] == last.pins()[k - all_pins(front).len()]);
            }
        }
    }
}

/// What element `new_e` is once `old_e` has taken the values `vals` on its pins and has
/// recomputed its outputs: a gate takes them on its inputs and evaluates them, a lamp takes
/// its one, a source keeps its own.
pub open spec fn settled(old_e: LogicElements, new_e: LogicElements, vals: Seq<PinValueModel>) -> bool {
    match old_e {
        LogicElements::Gates(g0) => new_e matches LogicElements::Gates(g1) && {
            &&& g1.same_shape(&g0)
            &&& forall|i: int| 0 <= i < g1.input.len() ==> (#[trigger] g1.input@[i]).value@ == vals[i]
            &&& g1.output.value@ == PinValueModel::Single(
                eval_gate(g0.kind, Seq::new(g0.input.len() as nat, |i: int| model_signal(vals[i]))),
            )
        },
        LogicElements::Leds(l0) => new_e matches LogicElements::Leds(l1) && {
            &&& same_but_value(l1.input, l0.input)
            &&& l1.input.value@ == vals[0]
            &&& l1 == (Led { input: l1.input, ..l0 })
        },
        _ => new_e == old_e,
    }
}

/// `e1` is `e0` with the id `id`, in itself and in each pin and pin hitbox's tag.
pub open spec fn renumbered(e0: LogicElements, e1: LogicElements, id: usize) -> bool {
    match e0 {
        LogicElements::Gates(g0) => e1 matches LogicElements::Gates(g1) && {
            &&& g1.id == id
            &&& g1.input.len() == g0.input.len()
            &&& forall|i: int| 0 <= i < g1.input.len() ==> #[trigger] g1.input@[i] == g0.input@[i].with_cid(id)
            &&& g1.output == g0.output.with_cid(id)
            &&& g1.num_input == g0.num_input
            &&& g1.kind == g0.kind
            &&& g1.position == g0.position
            &&& g1.hitbox == g0.hitbox
            &&& g1.ref_pin_pos == g0.ref_pin_pos
        },
        LogicElements::Source(s0) => e1 == LogicElements::Source(Source { id, output: s0.output.with_cid(id), ..s0 }),
        LogicElements::Leds(l0) => e1 == LogicElements::Leds(Led { id, input: l0.input.with_cid(id), ..l0 }),
        _ => e1 == e0,
    }
}

/// The signal of a value, with a bus read as undefined.
pub open spec fn model_signal(v: PinValueModel) -> Signal {
    match v {
        PinValueModel::Single(s) => s,
        PinValueModel::Multiple(_) => Signal::Undefined,
    }
}

/// Two distinct output pins among the first `np` positions are joined by a chain of
/// overlapping hitboxes.
pub open spec fn short_in(hb: Seq<Hitbox>, outs: Seq<bool>, np: int) -> bool {
    exists|i: int, j: int| 0 <= i < j < np && outs[i] && outs[j] && #[trigger] connected(hb, i, j)
}

/// Output pin `j` drives the net of pin `k`.
pub open spec fn drives(hb: Seq<Hitbox>, outs: Seq<bool>, np: int, k: int, j: int) -> bool {
    0 <= j < np && outs[j] && connected(hb, k, j)
}

/// The value pin `k` takes: an output keeps its own; another pin takes the value of the output
/// that drives its net, or becomes undefined when no output does.
pub open spec fn drive(hb: Seq<Hitbox>, outs: Seq<bool>, vals: Seq<PinValueModel>, np: int, k: int) -> PinValueModel {
    if outs[k] {
        vals[k]
    } else if exists|j: int| drives(hb, outs, np, k, j) {
        vals[choose|j: int| drives(hb, outs, np, k, j)]
    } else {
        PinValueModel::Single(Signal::Undefined)
    }
}

/// The hitboxes at the first `np` positions are exactly the pin hitboxes.
pub open spec fn pins_first(hb: Seq<Hitbox>, np: int) -> bool {
    &&& 0 <= np <= hb.len()
    &&& forall|k: int| 0 <= k < hb.len() ==> ((#[trigger] hb[k]).kind.is_pin_spec() <==> k < np)
}

/// A pin lies in the group of pin `k` exactly when a chain joins the two.
proof fn lemma_group_is_net(hb: Seq<Hitbox>, groups: Seq<Vec<usize>>, g: int, k: int, j: int)
    requires
        is_net_partition(hb, groups),
        hb.len() <= usize::MAX,
        0 <= g < groups.len(),
        groups[g]@.contains(k as usize),
        0 <= k < hb.len(),
        0 <= j < hb.len(),
        hb[j].kind.is_pin_spec(),
    ensures
        connected(hb, k, j) <==> groups[g]@.contains(j as usize),
{
    let gj = choose|h: int| 0 <= h < groups.len() && #[trigger] groups[h]@.contains(j as usize);
    let kk = choose|x: int| 0 <= x < groups[g].len() && groups[g]@[x] == k as usize;
    let kj = choose|x: int| 0 <= x < groups[gj].len() && groups[gj]@[x] == j as usize;
    assert(connected(hb, groups[g]@[kk] as int, groups[gj]@[kj] as int) <==> g == gj);
}

/// Finds two output pins in one group, if there are any.
fn find_short(hitboxes: &Vec<Hitbox>, groups: &Vec<Vec<usize>>, outs: &Vec<bool>) -> (r: Option<(usize, usize)>)
    requires
        is_net_partition(hitboxes@, groups@),
        pins_first(hitboxes@, outs.len() as int),
    ensures
        r is None <==> !short_in(hitboxes@, outs@, outs.len() as int),
        r matches Some((a, b)) ==> a < b < outs.len() && outs@[a as int] && outs@[b as int] && connected(
            hitboxes@,
            a as int,
            b as int,
        ),
{
    let ghost hb = hitboxes@;
    let ghost np = outs.len() as int;
    let mut g: usize = 0;
    while g < groups.len()
        invariant
            is_net_partition(hb, groups@),
            pins_first(hb, np),
            hb == hitboxes@,
            np == outs.len(),
            g <= groups.len(),
            forall|h: int, k1: int, k2: int|
                0 <= h < g && 0 <= k1 < k2 < groups@[h].len() ==> !(outs@[#[trigger] groups@[h]@[k1] as int]
                    && outs@[#[trigger] groups@[h]@[k2] as int]),
        decreases groups.len() - g,
    {
        let group = &groups[g];
        let mut first: Option<usize> = None;
        let mut k: usize = 0;
        while k < group.len()
            invariant
                is_net_partition(hb, groups@),
                pins_first(hb, np),
                hb == hitboxes@,
                np == outs.len(),
                g < groups.len(),
                *group == groups@[g as int],
                k <= group.len(),
                first matches Some(f) ==> f < k && outs@[group@[f as int] as int],
                first is None ==> forall|k1: int| 0 <= k1 < k ==> !outs@[#[trigger] group@[k1] as int],
                forall|k1: int, k2: int| 0 <= k1 < k2 < k ==> !(outs@[#[trigger] group@[k1] as int] && outs@[#[trigger] group@[k2] as int]),
            decreases group.len() - k,
        {
            let m = group[k];
            assert(m < hb.len() && hb[m as int].kind.is_pin_spec());
            if outs[m] {
                match first {
                    Some(f) => {
                        let a = group[f];
                        proof {
                            assert(connected(hb, groups@[g as int]@[f as int] as int, groups@[g as int]@[k as int] as int));
                            assert(group@[f as int] < group@[k as int]);
                        }
                        return Some((a, m));
                    },
                    None => {
                        first = Some(k);
                    },
                }
            }
            k += 1;
        }
        g += 1;
    }
    proof {
        assert forall|i: int, j: int| 0 <= i < j < np && outs@[i] && outs@[j] implies !#[trigger] connected(hb, i, j) by {
            if connected(hb, i, j) {
                assert(hb[i].kind.is_pin_spec() && hb[j].kind.is_pin_spec());
                let gi = choose|h: int| 0 <= h < groups.len() && #[trigger] groups@[h]@.contains(i as usize);
                lemma_group_is_net(hb, groups@, gi, i, j);
                let ki = choose|x: int| 0 <= x < groups@[gi].len() && groups@[gi]@[x] == i as usize;
                let kj = choose|x: int| 0 <= x < groups@[gi].len() && groups@[gi]@[x] == j as usize;
                if ki < kj {
                    assert(!(outs@[groups@[gi]@[ki] as int] && outs@[groups@[gi]@[kj] as int]));
                } else {
                    assert(!(outs@[groups@[gi]@[kj] as int] && outs@[groups@[gi]@[ki] as int]));
                }
            }
        }
    }
    None
}

/// Pin `k` lies in one of the first `g` groups.
spec fn done(groups: Seq<Vec<usize>>, g: int, k: int) -> bool {
    exists|h: int| 0 <= h < g && #[trigger] groups[h]@.contains(k as usize)
}

/// Gives each pin the value its net gives it: the value of the net's one output, or undefined
/// when the net has no output.
fn propagate(hitboxes: &Vec<Hitbox>, groups: &Vec<Vec<usize>>, outs: &Vec<bool>, vals: &Vec<PinValue>) -> (r: Vec<PinValue>)
    requires
        is_net_partition(hitboxes@, groups@),
        pins_first(hitboxes@, outs.len() as int),
        vals.len() == outs.len(),
        !short_in(hitboxes@, outs@, outs.len() as int),
    ensures
        r.len() == vals.len(),
        forall|k: int|
            0 <= k < r.len() ==> (#[trigger] r@[k])@ == drive(
                hitboxes@,
                outs@,
                vals@.map_values(|v: PinValue| v@),
                outs.len() as int,
                k,
            ),
{
    let ghost hb = hitboxes@;
    let ghost np = outs.len() as int;
    let ghost vm = vals@.map_values(|v: PinValue| v@);
    let hlen = hitboxes.len();
    let mut r: Vec<PinValue> = Vec::new();
    let mut k: usize = 0;
    while k < vals.len()
        invariant
            k <= vals.len(),
            r.len() == k,
            forall|j: int| 0 <= j < k ==> (#[trigger] r@[j])@ == vals@[j]@,
        decreases vals.len() - k,
    {
        r.push(vals[k].duplicate());
        k += 1;
    }
    let mut g: usize = 0;
    while g < groups.len()
        invariant
            is_net_partition(hb, groups@),
            pins_first(hb, np),
                hb.len() <= usize::MAX,
            hb == hitboxes@,
            np == outs.len(),
            vals.len() == np,
            vm == vals@.map_values(|v: PinValue| v@),
            !short_in(hb, outs@, np),
            g <= groups.len(),
            r.len() == np,
            forall|j: int| 0 <= j < np && done(groups@, g as int, j) ==> (#[trigger] r@[j])@ == drive(hb, outs@, vm, np, j),
            forall|j: int| 0 <= j < np && !done(groups@, g as int, j) ==> (#[trigger] r@[j])@ == vals@[j]@,
        decreases groups.len() - g,
    {
        let group = &groups[g];
        let mut src: Option<usize> = None;
        let mut k: usize = 0;
        while k < group.len()
            invariant
                is_net_partition(hb, groups@),
                pins_first(hb, np),
                hb.len() <= usize::MAX,
                np == outs.len(),
                g < groups.len(),
                *group == groups@[g as int],
                k <= group.len(),
                src matches Some(s) ==> s < np && outs@[s as int] && group@.contains(s),
                src is None ==> forall|k1: int| 0 <= k1 < k ==> !outs@[#[trigger] group@[k1] as int],
            decreases group.len() - k,
        {
            let m = group[k];
            assert(m < hb.len() && hb[m as int].kind.is_pin_spec());
            if outs[m] {
                src = Some(m);
            }
            k += 1;
        }
        let target = match src {
            Some(s) => vals[s].duplicate(),
            None => PinValue::Single(Signal::Undefined),
        };
        proof {
            assert forall|k1: int| 0 <= k1 < group.len() implies drive(hb, outs@, vm, np, #[trigger] group@[k1] as int)
                == target@ by {
                let m = group@[k1] as int;
                assert(m < hb.len() && hb[m].kind.is_pin_spec());
                assert(group@.contains(m as usize));
                match src {
                    Some(s) => {
                        let si = s as int;
                        assert(hb[si].kind.is_pin_spec());
                        lemma_group_is_net(hb, groups@, g as int, m, si);
                        if outs@[m] && m != si {
                            if m < si {
                                assert(connected(hb, m, si));
                            } else {
                                lemma_group_is_net(hb, groups@, g as int, si, m);
                                assert(connected(hb, si, m));
                            }
                        }
                        if !outs@[m] {
                            assert(drives(hb, outs@, np, m, si));
                            let j = choose|j: int| drives(hb, outs@, np, m, j);
                            assert(hb[j].kind.is_pin_spec());
                            lemma_group_is_net(hb, groups@, g as int, m, j);
                            lemma_group_is_net(hb, groups@, g as int, si, j);
                            if j != si {
                                if si < j {
                                    assert(connected(hb, si, j));
                                } else {
                                    lemma_group_is_net(hb, groups@, g as int, j, si);
                                    assert(connected(hb, j, si));
                                }
                            }
                        }
                    },
                    None => {
                        assert(!outs@[m]);
                        if exists|j: int| drives(hb, outs@, np, m, j) {
                            let j = choose|j: int| drives(hb, outs@, np, m, j);
                            assert(hb[j].kind.is_pin_spec());
                            lemma_group_is_net(hb, groups@, g as int, m, j);
                            let kj = choose|x: int| 0 <= x < group.len() && group@[x] == j as usize;
                            assert(!outs@[group@[kj] as int]);
                        }
                    },
                }
            }
        }
        let mut k: usize = 0;
        while k < group.len()
            invariant
                is_net_partition(hb, groups@),
                pins_first(hb, np),
                hb.len() <= usize::MAX,
                np == outs.len(),
                g < groups.len(),
                *group == groups@[g as int],
                k <= group.len(),
                r.len() == np,
                forall|k1: int| 0 <= k1 < group.len() ==> drive(hb, outs@, vm, np, #[trigger] group@[k1] as int) == target@,
                forall|j: int| 0 <= j < np && done(groups@, g as int, j) ==> (#[trigger] r@[j])@ == drive(hb, outs@, vm, np, j),
                forall|k1: int| 0 <= k1 < k ==> (#[trigger] r@[group@[k1] as int])@ == target@,
                forall|j: int|
                    0 <= j < np && !done(groups@, g as int, j) && !group@.subrange(0, k as int).contains(j as usize)
                        ==> (#[trigger] r@[j])@ == vals@[j]@,
            decreases group.len() - k,
        {
            let m = group[k];
            assert(m < hb.len() && hb[m as int].kind.is_pin_spec());
            proof {
                if done(groups@, g as int, m as int) {
                    let h = choose|h: int| 0 <= h < g && #[trigger] groups@[h]@.contains(m as usize);
                    lemma_group_is_net(hb, groups@, h, m as int, m as int);
                    lemma_connected_step(hb, m as int, m as int);
                    let kh = choose|x: int| 0 <= x < groups@[h].len() && groups@[h]@[x] == m;
                    assert(connected(hb, groups@[h]@[kh] as int, groups@[g as int]@[k as int] as int));
                }
            }
            r.set(m, target.duplicate());
            proof {
                assert forall|j: int|
                    0 <= j < np && !done(groups@, g as int, j) && !group@.subrange(0, k + 1).contains(j as usize)
                        implies (#[trigger] r@[j])@ == vals@[j]@ by {
                    if j != m {
                        if group@.subrange(0, k as int).contains(j as usize) {
                            let x = choose|x: int| 0 <= x < k && group@.subrange(0, k as int)[x] == j as usize;
                            assert(group@.subrange(0, k + 1)[x] == j as usize);
                        }
                    } else {
                        assert(group@.subrange(0, k + 1)[k as int] == m);
                    }
                }
            }
            k += 1;
        }
        proof {
            assert forall|j: int| 0 <= j < np && done(groups@, g + 1, j) implies (#[trigger] r@[j])@ == drive(
                hb,
                outs@,
                vm,
                np,
                j,
            ) by {
                if !done(groups@, g as int, j) {
                    let h = choose|h: int| 0 <= h < g + 1 && #[trigger] groups@[h]@.contains(j as usize);
                    let x = choose|x: int| 0 <= x < group.len() && group@[x] == j as usize;
                    assert(r@[group@[x] as int]@ == target@);
                }
            }
            assert forall|j: int| 0 <= j < np && !done(groups@, g + 1, j) implies (#[trigger] r@[j])@ == vals@[j]@ by {
                assert(group@.subrange(0, group.len() as int) =~= group@);
                if group@.contains(j as usize) {
                    assert(groups@[g as int]@.contains(j as usize));
                }
            }
        }
        g += 1;
    }
    proof {
        assert forall|k: int| 0 <= k < r.len() implies (#[trigger] r@[k])@ == drive(hb, outs@, vm, np, k) by {
            assert(hb[k].kind.is_pin_spec());
            let h = choose|h: int| 0 <= h < groups.len() && #[trigger] groups@[h]@.contains(k as usize);
            assert(done(groups@, g as int, k));
        }
    }
    r
}

/// The signal of a value, with a bus read as undefined.
fn signal_in(v: &PinValue) -> (r: Signal)
    ensures
        r == model_signal(v@),
{
    match v {
        PinValue::Single(s) => *s,
        PinValue::Multiple(_) => Signal::Undefined,
    }
}

/// Gives the element's pins the values `values[off..]` and recomputes its outputs.
fn settle(elem: &mut LogicElements, values: &Vec<PinValue>, off: usize)
    requires
        old(elem).wf(),
        off + old(elem).pins().len() <= values.len(),
    ensures
        final(elem).wf(),
        settled(*old(elem), *final(elem), Seq::new(old(elem).pins().len(), |s: int| values@[off + s]@)),
        final(elem).pins().len() == old(elem).pins().len(),
        final(elem).id_of() == old(elem).id_of(),
        final(elem).supported() == old(elem).supported(),
{
    let ghost vals = Seq::new(old(elem).pins().len(), |s: int| values@[off + s]@);
    match elem {
        LogicElements::Gates(g) => {
            let ghost g0 = *g;
            let mut signals: Vec<Signal> = Vec::new();
            let mut i: usize = 0;
            while i < g.num_input
                invariant
                    g.wf(),
                    g.same_shape(&g0),
                    g.output == g0.output,
                    i <= g.num_input,
                    off + g.num_input + 1 <= values.len(),
                    vals == Seq::new(g0.pins().len(), |s: int| values@[off + s]@),
                    signals@ == Seq::new(i as nat, |k: int| model_signal(vals[k])),
                    forall|k: int| 0 <= k < i ==> (#[trigger] g.input@[k]).value@ == vals[k],
                decreases g.num_input - i,
            {
                let v = &values[off + i];
                signals.push(signal_in(v));
                let p = pin_with_value(&g.input[i], v.duplicate());
                g.input.set(i, p);
                proof {
                    assert(signals@ =~= Seq::new((i + 1) as nat, |k: int| model_signal(vals[k])));
                }
                i += 1;
            }
            let out = evaluate(g.kind, &signals);
            let p = pin_with_value(&g.output, PinValue::Single(out));
            g.output = p;
        },
        LogicElements::Leds(l) => {
            let p = pin_with_value(&l.input, values[off].duplicate());
            l.input = p;
        },
        _ => {},
    }
}

/// `c1` is `c0` after one evaluation step: each element took the values its nets gave it and
/// recomputed its outputs; nothing else changed.
pub open spec fn simulation_step(c0: Circuit, c1: Circuit) -> bool {
    &&& c1.components.len() == c0.components.len()
    &&& forall|e: int|
        0 <= e < c0.components.len() ==> settled(#[trigger] c0.components@[e], c1.components@[e], c0.element_values(e))
    &&& c1.segments == c0.segments
    &&& c1.wires == c0.wires
    &&& c1.component_id == c0.component_id
}

/// The segments of the wires, wire after wire.
pub open spec fn wire_segments(wires: Seq<Wire>) -> Seq<WireSegment>
    decreases wires.len(),
{
    if wires.len() == 0 {
        seq![]
    } else {
        wire_segments(wires.drop_last()) + wires.last().segments@
    }
}

/// The grid cell size used to find overlapping hitboxes.
pub const CELL_SIZE: i64 = 50;

} // verus!

verus! {

/// A circuit: its elements, kept in ascending order of their ids, the wire segments drawn on
/// the canvas, the wires as drawn, and the next id to give. Connectivity comes from geometry
/// alone: pins join through overlapping hitboxes of pins and of every drawn segment, those in
/// `segments` and those of each wire. Listing pins in a wire by hand is a superseded way of
/// connecting them: `Wire::pins` joins nothing.
pub struct Circuit {
    pub components: Vec<LogicElements>,
    pub segments: Vec<WireSegment>,
    pub wires: Vec<Wire>,
    pub component_id: usize,
}

impl Circuit {
    pub open spec fn wf(&self) -> bool {
        &&& self.component_id >= 1
        &&& forall|e: int|
            0 <= e < self.components.len() ==> {
                &&& (#[trigger] self.components@[e]).wf()
                &&& self.components@[e].supported()
                &&& 1 <= self.components@[e].id_of() < self.component_id
            }
        &&& forall|e1: int, e2: int|
            0 <= e1 < e2 < self.components.len() ==> (#[trigger] self.components@[e1]).id_of()
                < (#[trigger] self.components@[e2]).id_of()
        &&& forall|s: int|
            0 <= s < self.segments.len() ==> (#[trigger] self.segments@[s]).hitbox.rect.wf()
                && self.segments@[s].hitbox.kind == HitboxType::Wire
        &&& forall|w: int, s: int|
            0 <= w < self.wires.len() && 0 <= s < self.wires@[w].segments.len() ==> (
            #[trigger] self.wires@[w].segments@[s]).hitbox.rect.wf() && self.wires@[w].segments@[s].hitbox.kind
                == HitboxType::Wire
    }

    /// All the pins, element after element.
    pub open spec fn pins(&self) -> Seq<Pin> {
        all_pins(self.components@)
    }

    /// The hitboxes of all the pins, then those of the wire segments.
    pub open spec fn hitboxes(&self) -> Seq<Hitbox> {
        self.pins().map_values(|p: Pin| p.hitbox) + self.drawn_segments().map_values(|s: WireSegment| s.hitbox)
    }

    /// Every drawn segment: those kept alone, then those of each wire in turn.
    pub open spec fn drawn_segments(&self) -> Seq<WireSegment> {
        self.segments@ + wire_segments(self.wires@)
    }

    pub open spec fn outs(&self) -> Seq<bool> {
        self.pins().map_values(|p: Pin| p.is_output())
    }

    pub open spec fn values(&self) -> Seq<PinValueModel> {
        self.pins().map_values(|p: Pin| p.value@)
    }

    /// Two output pins share a net.
    pub open spec fn short_circuit(&self) -> bool {
        short_in(self.hitboxes(), self.outs(), self.pins().len() as int)
    }

    /// The value pin `k` takes in a simulation step.
    pub open spec fn propagated(&self, k: int) -> PinValueModel {
        drive(self.hitboxes(), self.outs(), self.values(), self.pins().len() as int, k)
    }

    /// The values element `e`'s pins take in a simulation step.
    pub open spec fn element_values(&self, e: int) -> Seq<PinValueModel> {
        Seq::new(
            self.components@[e].pins().len(),
            |s: int| self.propagated(pin_offset(self.components@, e) + s),
        )
    }

    /// After propagation no gate has a bus on an input.
    pub open spec fn bus_free(&self) -> bool {
        forall|e: int, i: int|
            0 <= e < self.components.len() && (#[trigger] self.components@[e]) is Gates && 0 <= i
                < self.components@[e]->Gates_0.input.len() ==> #[trigger] self.propagated(
                pin_offset(self.components@, e) + i,
            ) is Single
    }

    /// An empty circuit; the first element will get id 1.
    pub fn new() -> (r: Self)
        ensures
            r.wf(),
            r.components@ == Seq::<LogicElements>::empty(),
            r.segments@ == Seq::<WireSegment>::empty(),
            r.wires@ == Seq::<Wire>::empty(),
            r.component_id == 1,
    {
        Circuit { components: Vec::new(), segments: Vec::new(), wires: Vec::new(), component_id: 1 }
    }

    /// Adds an element: it gets the next id, in itself and in its pins, and that id is
    /// returned. Ids start at 1, grow by one with each element and are never given twice.
    /// Only gates, sources and lamps can be added.
    pub fn add_element(&mut self, component: LogicElements) -> (r: Result<usize, CircuitError>)
        requires
            old(self).wf(),
            component.wf(),
            old(self).component_id < usize::MAX,
        ensures
            final(self).wf(),
            component.supported() <==> r is Ok,
            r is Err ==> r == Err::<usize, CircuitError>(CircuitError::Unsupported) && *final(self) == *old(self),
            r matches Ok(id) ==> added(*old(self), *final(self), component, id),
            r is Ok ==> final(self).segments == old(self).segments && final(self).wires == old(self).wires,
    {
        let mut component = component;
        let id = self.component_id;
        match component.set_id(id) {
            Ok(()) => {},
            Err(e) => {
                return Err(e);
            },
        }
        self.component_id = id + 1;
        let ghost before = self.components@;
        self.components.push(component);
        assert(self.components@.drop_last() =~= before);
        Ok(id)
    }

    /// Removes the element with id `id`; the other elements keep their ids.
    pub fn remove_element(&mut self, id: usize) -> (r: Result<(), CircuitError>)
        requires
            old(self).wf(),
        ensures
            final(self).wf(),
            (exists|e: int| 0 <= e < old(self).components.len() && (#[trigger] old(self).components@[e]).id_of() == id)
                <==> r is Ok,
            r is Err ==> r == Err::<(), CircuitError>(CircuitError::NoSuchElement) && *final(self) == *old(self),
            r is Ok ==> exists|e: int|
                0 <= e < old(self).components.len() && (#[trigger] old(self).components@[e]).id_of() == id
                    && final(self).components@ == old(self).components@.remove(e),
            final(self).segments == old(self).segments,
            final(self).wires == old(self).wires,
            final(self).component_id == old(self).component_id,
    {
        let mut e: usize = 0;
        while e < self.components.len()
            invariant
                self.wf(),
                *self == *old(self),
                e <= self.components.len(),
                forall|k: int| 0 <= k < e ==> (#[trigger] self.components@[k]).id_of() != id,
            decreases self.components.len() - e,
        {
            if self.components[e].id() == id {
                let ghost before = *self;
                self.components.remove(e);
                proof {
                    assert forall|e1: int, e2: int|
                        0 <= e1 < e2 < self.components.len() implies (#[trigger] self.components@[e1]).id_of()
                        < (#[trigger] self.components@[e2]).id_of() by {
                        let a = if e1 < e { e1 } else { e1 + 1 };
                        let b = if e2 < e { e2 } else { e2 + 1 };
                        assert(self.components@[e1] == before.components@[a]);
                        assert(self.components@[e2] == before.components@[b]);
                    }
                    assert forall|k: int| 0 <= k < self.components.len() implies {
                        &&& (#[trigger] self.components@[k]).wf()
                        &&& self.components@[k].supported()
                        &&& 1 <= self.components@[k].id_of() < self.component_id
                    } by {
                        let a = if k < e { k } else { k + 1 };
                        assert(self.components@[k] == before.components@[a]);
                    }
                    assert(before.components@[e as int].id_of() == id);
                }
                return Ok(());
            }
            e += 1;
        }
        Err(CircuitError::NoSuchElement)
    }

    /// The value of each element's output pin, element after element; a lamp, which has no
    /// output, gives its input's value.
    pub fn display_outputs(&self) -> (r: Vec<PinValue>)
        requires
            self.wf(),
        ensures
            r.len() == self.components.len(),
            forall|e: int|
                0 <= e < r.len() ==> (#[trigger] r@[e])@ == self.components@[e].pins().last().value@,
    {
        let mut r: Vec<PinValue> = Vec::new();
        let mut e: usize = 0;
        while e < self.components.len()
            invariant
                self.wf(),
                e <= self.components.len(),
                r.len() == e,
                forall|k: int| 0 <= k < e ==> (#[trigger] r@[k])@ == self.components@[k].pins().last().value@,
            decreases self.components.len() - e,
        {
            let v = match &self.components[e] {
                LogicElements::Gates(g) => g.output.value.duplicate(),
                LogicElements::Source(s) => s.output.value.duplicate(),
                LogicElements::Leds(l) => l.input.value.duplicate(),
                _ => PinValue::Single(Signal::Undefined),
            };
            r.push(v);
            e += 1;
        }
        r
    }

    /// One evaluation step. The hitboxes of all pins and wire segments are grouped into nets;
    /// a net with two output pins is a short circuit, reported with two of them, and nothing
    /// changes. Otherwise every input pin takes the value of the output that drives its net,
    /// or becomes undefined when none does; then every gate recomputes its output from its new
    /// inputs. A gate that would receive a bus cannot be evaluated yet: that is reported, and
    /// nothing changes.
    #[verifier::rlimit(60)]
    #[verifier::spinoff_prover]
    pub fn simulate(&mut self) -> (r: Result<(), CircuitError>)
        requires
            old(self).wf(),
        ensures
            final(self).wf(),
            old(self).short_circuit() <==> r matches Err(CircuitError::ShortCircuit(_, _)),
            r matches Err(CircuitError::ShortCircuit(a, b)) ==> {
                &&& a < b < old(self).pins().len()
                &&& old(self).pins()[a as int].is_output()
                &&& old(self).pins()[b as int].is_output()
                &&& connected(old(self).hitboxes(), a as int, b as int)
            },
            (!old(self).short_circuit() && !old(self).bus_free()) <==> r == Err::<(), CircuitError>(CircuitError::Unsupported),
            r is Ok || r == Err::<(), CircuitError>(CircuitError::Unsupported) || r matches Err(CircuitError::ShortCircuit(_, _)),
            r is Err ==> *final(self) == *old(self),
            r is Ok ==> simulation_step(*old(self), *final(self)),
    {
        let ghost comps = self.components@;
        let mut hitboxes: Vec<Hitbox> = Vec::new();
        let mut vals: Vec<PinValue> = Vec::new();
        let mut outs: Vec<bool> = Vec::new();
        let mut e: usize = 0;
        while e < self.components.len()
            invariant
                self.wf(),
                comps == self.components@,
                e <= self.components.len(),
                hitboxes@ == all_pins(comps.take(e as int)).map_values(|p: Pin| p.hitbox),
                outs@ == all_pins(comps.take(e as int)).map_values(|p: Pin| p.is_output()),
                vals.len() == all_pins(comps.take(e as int)).len(),
                forall|k: int| 0 <= k < vals.len() ==> (#[trigger] vals@[k])@ == all_pins(comps.take(e as int))[k].value@,
            decreases self.components.len() - e,
        {
            let ghost pre = all_pins(comps.take(e as int));
            let ghost vals0 = vals@;
            let mut h = self.components[e].get_pins_hitbox();
            hitboxes.append(&mut h);
            let mut o = self.components[e].pin_roles();
            outs.append(&mut o);
            let mut v = self.components[e].pin_values();
            vals.append(&mut v);
            proof {
                lemma_all_pins_take(comps, e as int);
                let post = all_pins(comps.take(e + 1));
                assert(post == pre + comps[e as int].pins());
                assert(hitboxes@ =~= post.map_values(|p: Pin| p.hitbox));
                assert(outs@ =~= post.map_values(|p: Pin| p.is_output()));
                assert forall|k: int| 0 <= k < vals.len() implies (#[trigger] vals@[k])@ == post[k].value@ by {
                    if k < pre.len() {
                        assert(vals@[k] == vals0[k]);
                    } else {
                        assert(post[k] == comps[e as int].pins()[k - pre.len()]);
                    }
                }
            }
            e += 1;
        }
        assert(comps.take(comps.len() as int) =~= comps);
        let np = outs.len();
        let ghost mut drawn: Seq<WireSegment> = Seq::empty();
        proof {
            assert(hitboxes@ =~= self.pins().map_values(|p: Pin| p.hitbox) + drawn.map_values(|w: WireSegment| w.hitbox));
        }
        let mut s: usize = 0;
        while s < self.segments.len()
            invariant
                self.wf(),
                comps == self.components@,
                s <= self.segments.len(),
                np == self.pins().len(),
                drawn == self.segments@.take(s as int),
                hitboxes@ == self.pins().map_values(|p: Pin| p.hitbox) + drawn.map_values(|w: WireSegment| w.hitbox),
                forall|k: int|
                    0 <= k < drawn.len() ==> (#[trigger] drawn[k]).hitbox.rect.wf() && drawn[k].hitbox.kind
                        == HitboxType::Wire,
            decreases self.segments.len() - s,
        {
            let seg = self.segments[s];
            hitboxes.push(seg.hitbox);
            proof {
                assert(self.segments@.take(s + 1) =~= drawn.push(seg));
                drawn = drawn.push(seg);
                assert(hitboxes@ =~= self.pins().map_values(|p: Pin| p.hitbox) + drawn.map_values(|w: WireSegment| w.hitbox));
            }
            s += 1;
        }
        proof {
            assert(self.segments@.take(self.segments.len() as int) =~= self.segments@);
            assert(self.wires@.take(0) =~= Seq::<Wire>::empty());
            assert(drawn =~= self.segments@ + wire_segments(self.wires@.take(0)));
        }
        let mut w: usize = 0;
        while w < self.wires.len()
            invariant
                self.wf(),
                comps == self.components@,
                w <= self.wires.len(),
                np == self.pins().len(),
                drawn == self.segments@ + wire_segments(self.wires@.take(w as int)),
                hitboxes@ == self.pins().map_values(|p: Pin| p.hitbox) + drawn.map_values(|w: WireSegment| w.hitbox),
                forall|k: int|
                    0 <= k < drawn.len() ==> (#[trigger] drawn[k]).hitbox.rect.wf() && drawn[k].hitbox.kind
                        == HitboxType::Wire,
            decreases self.wires.len() - w,
        {
            let ghost base = drawn;
            let mut s: usize = 0;
            while s < self.wires[w].segments.len()
                invariant
                    self.wf(),
                    comps == self.components@,
                    w < self.wires.len(),
                    s <= self.wires@[w as int].segments.len(),
                    np == self.pins().len(),
                    base == self.segments@ + wire_segments(self.wires@.take(w as int)),
                    drawn == base + self.wires@[w as int].segments@.take(s as int),
                    hitboxes@ == self.pins().map_values(|p: Pin| p.hitbox) + drawn.map_values(|w: WireSegment| w.hitbox),
                    forall|k: int|
                        0 <= k < drawn.len() ==> (#[trigger] drawn[k]).hitbox.rect.wf() && drawn[k].hitbox.kind
                            == HitboxType::Wire,
                decreases self.wires@[w as int].segments.len() - s,
            {
                let seg = self.wires[w].segments[s];
                hitboxes.push(seg.hitbox);
                proof {
                    assert(self.wires@[w as int].segments@.take(s + 1) =~= self.wires@[w as int].segments@.take(
                        s as int,
                    ).push(seg));
                    drawn = drawn.push(seg);
                    assert(drawn =~= base + self.wires@[w as int].segments@.take(s + 1));
                    assert(hitboxes@ =~= self.pins().map_values(|p: Pin| p.hitbox) + drawn.map_values(
                        |w: WireSegment| w.hitbox,
                    ));
                }
                s += 1;
            }
            proof {
                assert(self.wires@[w as int].segments@.take(s as int) =~= self.wires@[w as int].segments@);
                assert(self.wires@.take(w + 1).drop_last() =~= self.wires@.take(w as int));
                assert(drawn =~= self.segments@ + wire_segments(self.wires@.take(w + 1)));
            }
            w += 1;
        }
        proof {
            assert(self.wires@.take(self.wires.len() as int) =~= self.wires@);
            assert(drawn == self.drawn_segments());
            assert(hitboxes@ == self.hitboxes());
            lemma_all_pins_wf(comps);
            assert forall|k: int| 0 <= k < hitboxes.len() implies (#[trigger] hitboxes@[k]).rect.wf() by {
                if k < np {
                    assert(hitboxes@[k] == self.pins()[k].hitbox);
                } else {
                    assert(hitboxes@[k] == drawn[k - np].hitbox);
                }
            }
            assert forall|k: int| 0 <= k < hitboxes.len() implies ((#[trigger] hitboxes@[k]).kind.is_pin_spec() <==> k
                < np) by {
                if k < np {
                    assert(hitboxes@[k] == self.pins()[k].hitbox);
                } else {
                    assert(hitboxes@[k] == drawn[k - np].hitbox);
                }
            }
            assert(vals@.map_values(|v: PinValue| v@) =~= self.values());
        }
        let groups = group_connected_pins(&hitboxes, CELL_SIZE);
        match find_short(&hitboxes, &groups, &outs) {
            Some((a, b)) => {
                return Err(CircuitError::ShortCircuit(a, b));
            },
            None => {},
        }
        let values = propagate(&hitboxes, &groups, &outs, &vals);
        assert(forall|k: int| 0 <= k < np ==> (#[trigger] values@[k])@ == self.propagated(k));
        let mut e: usize = 0;
        let mut off: usize = 0;
        while e < self.components.len()
            invariant
                self.wf(),
                !self.short_circuit(),
                comps == self.components@,
                e <= self.components.len(),
                off == pin_offset(comps, e as int),
                off <= np,
                np == self.pins().len(),
                values.len() == np,
                forall|k: int| 0 <= k < np ==> (#[trigger] values@[k])@ == self.propagated(k),
                forall|e1: int, i: int|
                    0 <= e1 < e && (#[trigger] comps[e1]) is Gates && 0 <= i < comps[e1]->Gates_0.input.len()
                        ==> #[trigger] self.propagated(pin_offset(comps, e1) + i) is Single,
            decreases self.components.len() - e,
        {
            let count = self.components[e].pin_count();
            proof {
                lemma_all_pins_take(comps, e as int);
                if count > 0 {
                    lemma_all_pins_index(comps, e as int, count - 1);
                }
            }
            match &self.components[e] {
                LogicElements::Gates(g) => {
                    let mut i: usize = 0;
                    while i < g.num_input
                        invariant
                            self.wf(),
                            !self.short_circuit(),
                            comps == self.components@,
                            e < comps.len(),
                            off == pin_offset(comps, e as int),
                            *g == comps[e as int]->Gates_0,
                            comps[e as int] is Gates,
                            g.wf(),
                            off + g.num_input + 1 <= np,
                            values.len() == np,
                            i <= g.num_input,
                            forall|k: int| 0 <= k < np ==> (#[trigger] values@[k])@ == self.propagated(k),
                            forall|k: int| 0 <= k < i ==> #[trigger] self.propagated(off + k) is Single,
                        decreases g.num_input - i,
                    {
                        match &values[off + i] {
                            PinValue::Multiple(_) => {
                                proof {
                                    assert(!(self.propagated(pin_offset(comps, e as int) + i) is Single));
                                }
                                return Err(CircuitError::Unsupported);
                            },
                            PinValue::Single(_) => {},
                        }
                        i += 1;
                    }
                },
                _ => {},
            }
            off = off + count;
            e += 1;
        }
        let ghost start = *self;
        assert(self.bus_free());
        let mut e: usize = 0;
        let mut off: usize = 0;
        while e < self.components.len()
            invariant
                start.wf(),
                comps == start.components@,
                self.components.len() == comps.len(),
                self.segments == start.segments,
                self.wires == start.wires,
                self.component_id == start.component_id,
                e <= self.components.len(),
                off == pin_offset(comps, e as int),
                np == start.pins().len(),
                values.len() == np,
                forall|k: int| 0 <= k < np ==> (#[trigger] values@[k])@ == start.propagated(k),
                forall|e1: int| e <= e1 < comps.len() ==> #[trigger] self.components@[e1] == comps[e1],
                forall|e1: int|
                    0 <= e1 < e ==> settled(#[trigger] comps[e1], self.components@[e1], start.element_values(e1)),
                forall|e1: int|
                    0 <= e1 < e ==> (#[trigger] self.components@[e1]).wf() && self.components@[e1].supported()
                        && self.components@[e1].id_of() == comps[e1].id_of(),
            decreases self.components.len() - e,
        {
            let count = self.components[e].pin_count();
            proof {
                lemma_all_pins_take(comps, e as int);
                if count > 0 {
                    lemma_all_pins_index(comps, e as int, count - 1);
                }
            }
            settle(&mut self.components[e], &values, off);
            proof {
                assert(Seq::new(comps[e as int].pins().len(), |s: int| values@[off + s]@) =~= start.element_values(
                    e as int,
                ));
            }
            off = off + count;
            e += 1;
        }
        Ok(())
    }
}

} // verus!


verus! {

/// The pin in slot `s` of element `e` takes the value of the output that drives its net.
pub proof fn lemma_driven_input_takes_driver_value(c0: Circuit, c1: Circuit, e: int, s: int, j: int)
    requires
        c0.wf(),
        !c0.short_circuit(),
        simulation_step(c0, c1),
        0 <= e < c0.components.len(),
        0 <= s < c0.components@[e].pins().len(),
        !c0.components@[e].pins()[s].is_output(),
        drives(c0.hitboxes(), c0.outs(), c0.pins().len() as int, pin_offset(c0.components@, e) + s, j),
    ensures
        c1.components@[e].pins()[s].value@ == c0.values()[j],
{
    let k = pin_offset(c0.components@, e) + s;
    lemma_all_pins_index(c0.components@, e, s);
    let hb = c0.hitboxes();
    let outs = c0.outs();
    let np = c0.pins().len() as int;
    assert(!outs[k]);
    let j2 = choose|j2: int| drives(hb, outs, np, k, j2);
    if j2 != j {
        lemma_connected_symmetric(hb, k, j2);
        lemma_connected_transitive(hb, j2, k, j);
        if j2 < j {
            assert(connected(hb, j2, j));
        } else {
            lemma_connected_symmetric(hb, j2, j);
            assert(connected(hb, j, j2));
        }
    }
    assert(c0.propagated(k) == c0.values()[j]);
    assert(c0.element_values(e)[s] == c0.propagated(k));
    assert(settled(c0.components@[e], c1.components@[e], c0.element_values(e)));
    match c0.components@[e] {
        LogicElements::Gates(g0) => {
            let g1 = c1.components@[e]->Gates_0;
            if s < g0.input.len() {
                assert(c1.components@[e].pins()[s] == g1.input@[s]);
            } else {
                assert(c0.components@[e].pins()[s] == g0.output);
            }
        },
        _ => {},
    }
}

/// A pin in slot `s` of element `e` whose net no output drives becomes undefined.
pub proof fn lemma_undriven_input_undefined(c0: Circuit, c1: Circuit, e: int, s: int)
    requires
        c0.wf(),
        simulation_step(c0, c1),
        0 <= e < c0.components.len(),
        0 <= s < c0.components@[e].pins().len(),
        !c0.components@[e].pins()[s].is_output(),
        forall|j: int| !#[trigger] drives(c0.hitboxes(), c0.outs(), c0.pins().len() as int, pin_offset(c0.components@, e) + s, j),
    ensures
        c1.components@[e].pins()[s].value@ == PinValueModel::Single(Signal::Undefined),
{
    let k = pin_offset(c0.components@, e) + s;
    lemma_all_pins_index(c0.components@, e, s);
    assert(!c0.outs()[k]);
    assert(c0.element_values(e)[s] == c0.propagated(k));
    assert(settled(c0.components@[e], c1.components@[e], c0.element_values(e)));
    match c0.components@[e] {
        LogicElements::Gates(g0) => {
            let g1 = c1.components@[e]->Gates_0;
            if s < g0.input.len() {
                assert(c1.components@[e].pins()[s] == g1.input@[s]);
            } else {
                assert(c0.components@[e].pins()[s] == g0.output);
            }
        },
        _ => {},
    }
}

/// Pins that differ at most in their values, position by position.
pub open spec fn same_pin_shapes(a: Seq<Pin>, b: Seq<Pin>) -> bool {
    &&& a.len() == b.len()
    &&& forall|k: int| 0 <= k < a.len() ==> same_but_value(#[trigger] a[k], b[k])
}

/// A settled element keeps the shape of its pins.
proof fn lemma_settled_shape(e0: LogicElements, e1: LogicElements, vals: Seq<PinValueModel>)
    requires
        settled(e0, e1, vals),
    ensures
        same_pin_shapes(e1.pins(), e0.pins()),
{
    match e0 {
        LogicElements::Gates(g0) => {
            let g1 = e1->Gates_0;
            assert forall|k: int| 0 <= k < e1.pins().len() implies same_but_value(#[trigger] e1.pins()[k], e0.pins()[k]) by {
                if k < g1.input.len() {
                    assert(e1.pins()[k] == g1.input@[k]);
                    assert(e0.pins()[k] == g0.input@[k]);
                }
            }
        },
        _ => {},
    }
}

/// Elements whose pins keep their shapes give all-pin sequences that keep their shapes.
proof fn lemma_all_pins_shapes(a: Seq<LogicElements>, b: Seq<LogicElements>)
    requires
        a.len() == b.len(),
        forall|e: int| 0 <= e < a.len() ==> same_pin_shapes(#[trigger] a[e].pins(), b[e].pins()),
    ensures
        same_pin_shapes(all_pins(a), all_pins(b)),
        forall|e: int| 0 <= e <= a.len() ==> #[trigger] pin_offset(a, e) == pin_offset(b, e),
    decreases a.len(),
{
    if a.len() > 0 {
        let fa = a.drop_last();
        let fb = b.drop_last();
        assert forall|e: int| 0 <= e < fa.len() implies same_pin_shapes(#[trigger] fa[e].pins(), fb[e].pins()) by {
            assert(fa[e] == a[e] && fb[e] == b[e]);
        }
        lemma_all_pins_shapes(fa, fb);
        assert(same_pin_shapes(a.last().pins(), b.last().pins()));
        let pa = all_pins(a);
        let pb = all_pins(b);
        assert forall|k: int| 0 <= k < pa.len() implies same_but_value(#[trigger] pa[k], pb[k]) by {
            if k < all_pins(fa).len() {
                assert(pa[k] == all_pins(fa)[k]);
                assert(pb[k] == all_pins(fb)[k]);
            } else {
                assert(pa[k] == a.last().pins()[k - all_pins(fa).len()]);
                assert(pb[k] == b.last().pins()[k - all_pins(fb).len()]);
            }
        }
        assert forall|e: int| 0 <= e <= a.len() implies #[trigger] pin_offset(a, e) == pin_offset(b, e) by {
            if e < a.len() {
                assert(a.take(e) =~= fa.take(e));
                assert(b.take(e) =~= fb.take(e));
                assert(pin_offset(fa, e) == pin_offset(fb, e));
            } else {
                assert(a.take(e) =~= a);
                assert(b.take(e) =~= b);
            }
        }
    } else {
        assert forall|e: int| 0 <= e <= a.len() implies #[trigger] pin_offset(a, e) == pin_offset(b, e) by {
            assert(a.take(e) =~= a);
            assert(b.take(e) =~= b);
        }
    }
}

/// A step keeps the hitboxes, the roles of the pins and where each element's pins begin.
proof fn lemma_step_keeps_shape(c0: Circuit, c1: Circuit)
    requires
        simulation_step(c0, c1),
    ensures
        c1.pins().len() == c0.pins().len(),
        c1.hitboxes() == c0.hitboxes(),
        c1.outs() == c0.outs(),
        forall|e: int| 0 <= e <= c0.components.len() ==> #[trigger] pin_offset(c1.components@, e) == pin_offset(c0.components@, e),
        forall|e: int| 0 <= e < c0.components.len() ==> (#[trigger] c1.components@[e]).pins().len() == c0.components@[e].pins().len(),
{
    let a = c0.components@;
    let b = c1.components@;
    assert forall|e: int| 0 <= e < b.len() implies same_pin_shapes(#[trigger] b[e].pins(), a[e].pins()) by {
        assert(settled(a[e], b[e], c0.element_values(e)));
        lemma_settled_shape(a[e], b[e], c0.element_values(e));
    }
    lemma_all_pins_shapes(b, a);
    let np = c0.pins().len() as int;
    assert(c1.pins().map_values(|p: Pin| p.hitbox) =~= c0.pins().map_values(|p: Pin| p.hitbox)) by {
        assert forall|k: int| 0 <= k < np implies #[trigger] c1.pins()[k].hitbox == c0.pins()[k].hitbox by {
            assert(same_but_value(c1.pins()[k], c0.pins()[k]));
        }
    }
    assert(c1.hitboxes() =~= c0.hitboxes());
    assert(c1.outs() =~= c0.outs()) by {
        assert forall|k: int| 0 <= k < np implies #[trigger] c1.pins()[k].ioc == c0.pins()[k].ioc by {
            assert(same_but_value(c1.pins()[k], c0.pins()[k]));
        }
    }
}

/// An element settled twice on the same values keeps the values of the first time.
proof fn lemma_settled_twice(e0: LogicElements, e1: LogicElements, e2: LogicElements, v: Seq<PinValueModel>, s: int)
    requires
        settled(e0, e1, v),
        settled(e1, e2, v),
        0 <= s < e1.pins().len(),
    ensures
        e2.pins()[s].value@ == e1.pins()[s].value@,
{
    match e0 {
        LogicElements::Gates(g0) => {
            let g1 = e1->Gates_0;
            let g2 = e2->Gates_0;
            if s < g1.input.len() {
                assert(e1.pins()[s] == g1.input@[s]);
                assert(e2.pins()[s] == g2.input@[s]);
            } else {
                assert(Seq::new(g1.input.len() as nat, |i: int| model_signal(v[i])) =~= Seq::new(
                    g0.input.len() as nat,
                    |i: int| model_signal(v[i]),
                ));
            }
        },
        _ => {},
    }
}

/// Circuits with the same hitboxes, roles and output values propagate the same values.
proof fn lemma_same_outputs_same_drive(c0: Circuit, c1: Circuit, k: int)
    requires
        c1.pins().len() == c0.pins().len(),
        c1.hitboxes() == c0.hitboxes(),
        c1.outs() == c0.outs(),
        0 <= k < c0.pins().len(),
        forall|j: int| 0 <= j < c0.pins().len() && c0.outs()[j] ==> c1.values()[j] == #[trigger] c0.values()[j],
    ensures
        c1.propagated(k) == c0.propagated(k),
{
    let np = c0.pins().len() as int;
    let hb = c0.hitboxes();
    let outs = c0.outs();
    if exists|j: int| drives(hb, outs, np, k, j) {
        let j = choose|j: int| drives(hb, outs, np, k, j);
        assert(c1.values()[j] == c0.values()[j]);
    }
    if outs[k] {
        assert(c1.values()[k] == c0.values()[k]);
    }
}

/// Once a step leaves every output's value as it was, the next step changes no pin's value:
/// the circuit has settled.
pub proof fn lemma_simulate_idempotent(c0: Circuit, c1: Circuit, c2: Circuit)
    requires
        c0.wf(),
        simulation_step(c0, c1),
        simulation_step(c1, c2),
        forall|j: int| 0 <= j < c0.pins().len() && c0.outs()[j] ==> c1.values()[j] == #[trigger] c0.values()[j],
    ensures
        c2.components.len() == c1.components.len(),
        forall|e: int, s: int|
            0 <= e < c1.components.len() && 0 <= s < c1.components@[e].pins().len() ==> (#[trigger] c2.components@[e].pins()[s]).value@
                == c1.components@[e].pins()[s].value@,
{
    lemma_step_keeps_shape(c0, c1);
    let np = c0.pins().len() as int;
    assert forall|k: int| 0 <= k < np implies #[trigger] c1.propagated(k) == c0.propagated(k) by {
        lemma_same_outputs_same_drive(c0, c1, k);
    }
    assert forall|e: int, s: int|
        0 <= e < c1.components.len() && 0 <= s < c1.components@[e].pins().len() implies (#[trigger] c2.components@[e].pins()[s]).value@
        == c1.components@[e].pins()[s].value@ by {
        assert(pin_offset(c1.components@, e) == pin_offset(c0.components@, e));
        assert(c1.components@[e].pins().len() == c0.components@[e].pins().len());
        lemma_all_pins_index(c0.components@, e, s);
        assert forall|x: int| 0 <= x < c0.components@[e].pins().len() implies #[trigger] c1.element_values(e)[x]
            == c0.element_values(e)[x] by {
            lemma_all_pins_index(c0.components@, e, x);
        }
        assert(c1.element_values(e) =~= c0.element_values(e));
        assert(settled(c0.components@[e], c1.components@[e], c0.element_values(e)));
        assert(settled(c1.components@[e], c2.components@[e], c1.element_values(e)));
        lemma_settled_twice(c0.components@[e], c1.components@[e], c2.components@[e], c0.element_values(e), s);
    }
}

/// `c1` is `c0` after `e` was added under the id `id`.
pub open spec fn added(c0: Circuit, c1: Circuit, e: LogicElements, id: usize) -> bool {
    &&& id == c0.component_id
    &&& c1.component_id == c0.component_id + 1
    &&& c1.components@.drop_last() == c0.components@
    &&& c1.components.len() == c0.components.len() + 1
    &&& renumbered(e, c1.components@.last(), id)
}

/// Into a new circuit, three elements of any kinds added one after another get the ids 1, 2
/// and 3.
pub proof fn lemma_ids_one_two_three(
    c0: Circuit,
    c1: Circuit,
    c2: Circuit,
    c3: Circuit,
    e1: LogicElements,
    e2: LogicElements,
    e3: LogicElements,
    id1: usize,
    id2: usize,
    id3: usize,
)
    requires
        c0.component_id == 1,
        added(c0, c1, e1, id1),
        added(c1, c2, e2, id2),
        added(c2, c3, e3, id3),
    ensures
        id1 == 1 && id2 == 2 && id3 == 3,
{
}

} // verus!
