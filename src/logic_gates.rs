use vstd::prelude::*;

use crate::structure::{
    Signal, LogicGates, PinValue, PinValueModel, Pin, Hitbox, HitboxType, Rect, Point, CircuitError,
    OUTPUT, INPUT, copy_signals,
};

verus! {

/// The complement of a signal; undefined stays undefined.
pub open spec fn complement(s: Signal) -> Signal {
    match s {
        Signal::On => Signal::Off,
        Signal::Off => Signal::On,
        Signal::Undefined => Signal::Undefined,
    }
}

pub open spec fn all_on(s: Seq<Signal>) -> bool {
    forall|i: int| 0 <= i < s.len() ==> s[i] == Signal::On
}

pub open spec fn any_on(s: Seq<Signal>) -> bool {
    exists|i: int| 0 <= i < s.len() && s[i] == Signal::On
}

pub open spec fn any_undefined(s: Seq<Signal>) -> bool {
    exists|i: int| 0 <= i < s.len() && s[i] == Signal::Undefined
}

/// How many of the signals are on.
pub open spec fn on_count(s: Seq<Signal>) -> nat
    decreases s.len(),
{
    if s.len() == 0 {
        0
    } else {
        on_count(s.drop_last()) + if s.last() == Signal::On {
            1nat
        } else {
            0nat
        }
    }
}

/// And: on when every input is on, else undefined when an input is undefined, else off.
pub open spec fn and_of(s: Seq<Signal>) -> Signal {
    if all_on(s) {
        Signal::On
    } else if any_undefined(s) {
        Signal::Undefined
    } else {
        Signal::Off
    }
}

/// Or: on when an input is on, else undefined when an input is undefined, else off.
pub open spec fn or_of(s: Seq<Signal>) -> Signal {
    if any_on(s) {
        Signal::On
    } else if any_undefined(s) {
        Signal::Undefined
    } else {
        Signal::Off
    }
}

/// Xor: undefined when an input is undefined, else on when an odd number of inputs are on.
pub open spec fn xor_of(s: Seq<Signal>) -> Signal {
    if any_undefined(s) {
        Signal::Undefined
    } else if on_count(s) % 2 == 1 {
        Signal::On
    } else {
        Signal::Off
    }
}

/// The output of a gate of kind `kind` whose inputs carry the signals `s`.
pub open spec fn eval_gate(kind: LogicGates, s: Seq<Signal>) -> Signal {
    match kind {
        LogicGates::And => and_of(s),
        LogicGates::Nand => complement(and_of(s)),
        LogicGates::Or => or_of(s),
        LogicGates::Nor => complement(or_of(s)),
        LogicGates::Xor => xor_of(s),
        LogicGates::Xnor => complement(xor_of(s)),
        LogicGates::Not => if s.len() == 0 {
            Signal::Undefined
        } else {
            complement(s[0])
        },
    }
}

/// The kind of gate that a numeric gate id names: 0 And, 1 Or, 2 Not, 3 Nand, 4 Nor, 5 Xor, 6 Xnor.
pub open spec fn gate_kind_of(id: u32) -> LogicGates
    recommends
        id <= 6,
{
    if id == 0 {
        LogicGates::And
    } else if id == 1 {
        LogicGates::Or
    } else if id == 2 {
        LogicGates::Not
    } else if id == 3 {
        LogicGates::Nand
    } else if id == 4 {
        LogicGates::Nor
    } else if id == 5 {
        LogicGates::Xor
    } else {
        LogicGates::Xnor
    }
}

/// Computes the output of a gate of kind `kind` from the signals on its inputs.
pub fn evaluate(kind: LogicGates, signals: &Vec<Signal>) -> (r: Signal)
    ensures
        r == eval_gate(kind, signals@),
{
    let mut all_on_so_far = true;
    let mut any_on_so_far = false;
    let mut any_undefined_so_far = false;
    let mut odd = false;
    let mut i: usize = 0;
    while i < signals.len()
        invariant
            i <= signals.len(),
            all_on_so_far == all_on(signals@.subrange(0, i as int)),
            any_on_so_far == any_on(signals@.subrange(0, i as int)),
            any_undefined_so_far == any_undefined(signals@.subrange(0, i as int)),
            odd == (on_count(signals@.subrange(0, i as int)) % 2 == 1),
        decreases signals.len() - i,
    {
        let s = signals[i];
        let ghost pre = signals@.subrange(0, i as int);
        let ghost post = signals@.subrange(0, i + 1);
        assert(post.drop_last() =~= pre);
        assert(post.last() == s);
        match s {
            Signal::On => {
                any_on_so_far = true;
                odd = !odd;
            },
            Signal::Off => {
                all_on_so_far = false;
            },
            Signal::Undefined => {
                all_on_so_far = false;
                any_undefined_so_far = true;
            },
        }
        proof {
            assert(all_on_so_far == all_on(post)) by {
                if all_on(pre) && s == Signal::On {
                    assert forall|k: int| 0 <= k < post.len() implies post[k] == Signal::On by {
                        if k < pre.len() {
                            assert(post[k] == pre[k]);
                        }
                    }
                }
                if !all_on(pre) {
                    let k = choose|k: int| 0 <= k < pre.len() && pre[k] != Signal::On;
                    assert(post[k] == pre[k]);
                }
                if s != Signal::On {
                    assert(post[i as int] == s);
                }
            }
            assert(any_on_so_far == any_on(post)) by {
                if any_on(pre) {
                    let k = choose|k: int| 0 <= k < pre.len() && pre[k] == Signal::On;
                    assert(post[k] == pre[k]);
                }
                if s == Signal::On {
                    assert(post[i as int] == s);
                }
                if any_on(post) {
                    let k = choose|k: int| 0 <= k < post.len() && post[k] == Signal::On;
                    if k < pre.len() {
                        assert(post[k] == pre[k]);
                    }
                }
            }
            assert(any_undefined_so_far == any_undefined(post)) by {
                if any_undefined(pre) {
                    let k = choose|k: int| 0 <= k < pre.len() && pre[k] == Signal::Undefined;
                    assert(post[k] == pre[k]);
                }
                if s == Signal::Undefined {
                    assert(post[i as int] == s);
                }
                if any_undefined(post) {
                    let k = choose|k: int| 0 <= k < post.len() && post[k] == Signal::Undefined;
                    if k < pre.len() {
                        assert(post[k] == pre[k]);
                    }
                }
            }
        }
        i += 1;
    }
    assert(signals@.subrange(0, signals.len() as int) =~= signals@);
    let and_out = if all_on_so_far {
        Signal::On
    } else if any_undefined_so_far {
        Signal::Undefined
    } else {
        Signal::Off
    };
    let or_out = if any_on_so_far {
        Signal::On
    } else if any_undefined_so_far {
        Signal::Undefined
    } else {
        Signal::Off
    };
    let xor_out = if any_undefined_so_far {
        Signal::Undefined
    } else if odd {
        Signal::On
    } else {
        Signal::Off
    };
    match kind {
        LogicGates::And => and_out,
        LogicGates::Nand => invert(and_out),
        LogicGates::Or => or_out,
        LogicGates::Nor => invert(or_out),
        LogicGates::Xor => xor_out,
        LogicGates::Xnor => invert(xor_out),
        LogicGates::Not => {
            if signals.len() == 0 {
                Signal::Undefined
            } else {
                invert(signals[0])
            }
        },
    }
}

/// The complement of a signal.
pub fn invert(s: Signal) -> (r: Signal)
    ensures
        r == complement(s),
{
    match s {
        Signal::On => Signal::Off,
        Signal::Off => Signal::On,
        Signal::Undefined => Signal::Undefined,
    }
}

/// Nand, Nor and Xnor give the complement of And, Or and Xor on every input vector.
pub proof fn lemma_complementary_pairs(s: Seq<Signal>)
    ensures
        eval_gate(LogicGates::Nand, s) == complement(eval_gate(LogicGates::And, s)),
        eval_gate(LogicGates::Nor, s) == complement(eval_gate(LogicGates::Or, s)),
        eval_gate(LogicGates::Xnor, s) == complement(eval_gate(LogicGates::Xor, s)),
{
}

/// On at least one input, an all-on vector makes And and Or on and Nand and Nor off, and an
/// all-off vector does the reverse.
pub proof fn lemma_all_on_all_off(n: nat)
    requires
        n >= 1,
    ensures
        ({
            let ons = Seq::new(n, |i: int| Signal::On);
            &&& eval_gate(LogicGates::And, ons) == Signal::On
            &&& eval_gate(LogicGates::Nand, ons) == Signal::Off
            &&& eval_gate(LogicGates::Or, ons) == Signal::On
            &&& eval_gate(LogicGates::Nor, ons) == Signal::Off
        }),
        ({
            let offs = Seq::new(n, |i: int| Signal::Off);
            &&& eval_gate(LogicGates::And, offs) == Signal::Off
            &&& eval_gate(LogicGates::Nand, offs) == Signal::On
            &&& eval_gate(LogicGates::Or, offs) == Signal::Off
            &&& eval_gate(LogicGates::Nor, offs) == Signal::On
        }),
{
    let ons = Seq::new(n, |i: int| Signal::On);
    let offs = Seq::new(n, |i: int| Signal::Off);
    assert(ons[0] == Signal::On);
    assert(offs[0] == Signal::Off);
}

/// The value a fresh pin starts with: a bus of `bits` undefined signals for a bus element,
/// else one undefined signal.
pub open spec fn fresh_value(bus: bool, bits: usize) -> PinValueModel {
    if bus && bits > 1 {
        PinValueModel::Multiple(Seq::new(bits as nat, |i: int| Signal::Undefined))
    } else {
        PinValueModel::Single(Signal::Undefined)
    }
}

/// The signal that input `i` receives from `signals`: its own, or undefined past the end.
pub open spec fn padded(signals: Seq<Signal>, i: int) -> Signal {
    if i < signals.len() {
        signals[i]
    } else {
        Signal::Undefined
    }
}

/// The signal a pin carries, with a bus read as undefined.
pub open spec fn signal_of(p: Pin) -> Signal {
    match p.value {
        PinValue::Single(s) => s,
        PinValue::Multiple(_) => Signal::Undefined,
    }
}

/// Every pin carries a single signal.
pub open spec fn all_single(pins: Seq<Pin>) -> bool {
    forall|i: int| 0 <= i < pins.len() ==> pins[i].value is Single
}

pub open spec fn signals_of(pins: Seq<Pin>) -> Seq<Signal> {
    pins.map_values(|p: Pin| signal_of(p))
}

/// The two pins differ at most in their values.
pub open spec fn same_but_value(a: Pin, b: Pin) -> bool {
    &&& a.cid == b.cid
    &&& a.pid == b.pid
    &&& a.ioc == b.ioc
    &&& a.hitbox == b.hitbox
}

/// `p` with the value `v`.
pub fn pin_with_value(p: &Pin, v: PinValue) -> (r: Pin)
    ensures
        same_but_value(r, *p),
        r.value == v,
{
    Pin { value: v, cid: p.cid, pid: p.pid, ioc: p.ioc, hitbox: p.hitbox }
}

/// A two-input-or-more logic gate with one output.
#[derive(Debug, Clone, PartialEq, Eq)]
pub struct LogicGate {
    pub input: Vec<Pin>,
    pub output: Pin,
    pub num_input: usize,
    pub kind: LogicGates,
    pub id: usize,
    pub position: Point,
    pub hitbox: Hitbox,
    pub ref_pin_pos: Point,
}

impl LogicGate {
    /// The invariant of a gate: ports numbered from 1, roles and ids in place, geometry near
    /// the logic gate's position.
    pub open spec fn wf(&self) -> bool {
        &&& self.input.len() == self.num_input
        &&& self.num_input < u32::MAX
        &&& self.kind == LogicGates::Not ==> self.num_input == 1
        &&& forall|i: int|
            0 <= i < self.input.len() ==> {
                let p = #[trigger] self.input@[i];
                &&& p.pid == i + 1
                &&& p.ioc == INPUT
                &&& p.cid == self.id
                &&& p.tagged()
                &&& p.hitbox.rect.near(self.position)
            }
        &&& self.output.pid == 1
        &&& self.output.ioc == OUTPUT
        &&& self.output.cid == self.id
        &&& self.output.tagged()
        &&& self.output.hitbox.rect.near(self.position)
        &&& self.position.in_canvas()
        &&& self.hitbox.rect.near(self.position)
        &&& self.ref_pin_pos.near(self.position)
    }

    /// The logic gate's pins: its inputs in order, then its output.
    pub open spec fn pins(&self) -> Seq<Pin> {
        self.input@.push(self.output)
    }

    /// The logic gate's shape, everything but the pins' values.
    pub open spec fn same_shape(&self, o: &LogicGate) -> bool {
        &&& self.input.len() == o.input.len()
        &&& forall|i: int| 0 <= i < self.input.len() ==> same_but_value(#[trigger] self.input@[i], o.input@[i])
        &&& same_but_value(self.output, o.output)
        &&& self.num_input == o.num_input
        &&& self.kind == o.kind
        &&& self.id == o.id
        &&& self.position == o.position
        &&& self.hitbox == o.hitbox
        &&& self.ref_pin_pos == o.ref_pin_pos
    }

    /// Builds a gate of kind `gate_type` (0 And, 1 Or, 2 Not, 3 Nand, 4 Nor, 5 Xor, 6 Xnor) with
    /// `num_inputs` inputs numbered from 1 and one output numbered 1, all undefined; the pins of
    /// a bus gate carry `bits` signals each.
    pub fn new_gate(gate_type: u32, num_inputs: usize, bus: bool, bits: usize) -> (r: Result<
        LogicGate,
        CircuitError,
    >)
        requires
            num_inputs < u32::MAX,
        ensures
            gate_type > 6 <==> r == Err::<LogicGate, CircuitError>(CircuitError::InvalidGateKind(gate_type)),
            (gate_type == 2 && num_inputs != 1) <==> r == Err::<LogicGate, CircuitError>(
                CircuitError::NotGateArity(num_inputs),
            ),
            r is Ok <==> gate_type <= 6 && (gate_type == 2 ==> num_inputs == 1),
            r matches Ok(g) ==> {
                &&& g.wf()
                &&& g.kind == gate_kind_of(gate_type)
                &&& g.num_input == num_inputs
                &&& g.id == 0
                &&& g.position == (Point { x: 0, y: 0 })
                &&& forall|i: int| 0 <= i < g.input.len() ==> (#[trigger] g.input@[i]).value@ == fresh_value(bus, bits)
                &&& forall|i: int| 0 <= i < g.input.len() ==> (#[trigger] g.input@[i]).hitbox.rect == (Rect {
                    x: 4,
                    y: ((if gate_type == 2 { 33int } else { 23int }) + 20 * i) as i64,
                    w: 5,
                    h: 5,
                })
                &&& g.output.value@ == fresh_value(bus, bits)
                &&& g.output.hitbox.rect == (Rect { x: 73, y: if bus { 32 } else { 33 }, w: 5, h: 5 })
            },
    {
        if gate_type > 6 {
            return Err(CircuitError::InvalidGateKind(gate_type));
        }
        if gate_type == 2 && num_inputs != 1 {
            return Err(CircuitError::NotGateArity(num_inputs));
        }
        let kind = if gate_type == 0 {
            LogicGates::And
        } else if gate_type == 1 {
            LogicGates::Or
        } else if gate_type == 2 {
            LogicGates::Not
        } else if gate_type == 3 {
            LogicGates::Nand
        } else if gate_type == 4 {
            LogicGates::Nor
        } else if gate_type == 5 {
            LogicGates::Xor
        } else {
            LogicGates::Xnor
        };
        let base: i64 = if gate_type == 2 { 33 } else { 23 };
        let origin = Point { x: 0, y: 0 };
        let mut input: Vec<Pin> = Vec::new();
        let mut i: usize = 0;
        while i < num_inputs
            invariant
                i <= num_inputs,
                num_inputs < u32::MAX,
                base == 23 || base == 33,
                origin == (Point { x: 0, y: 0 }),
                input.len() == i,
                forall|k: int|
                    0 <= k < i ==> {
                        let p = #[trigger] input@[k];
                        &&& p.pid == k + 1
                        &&& p.ioc == INPUT
                        &&& p.cid == 0
                        &&& p.tagged()
                        &&& p.hitbox.rect == (Rect { x: 4, y: (base + 20 * k) as i64, w: 5, h: 5 })
                        &&& p.hitbox.rect.near(origin)
                        &&& p.value@ == fresh_value(bus, bits)
                    },
            decreases num_inputs - i,
        {
            let value = if bus {
                PinValue::undefined(bits)
            } else {
                PinValue::Single(Signal::Undefined)
            };
            assert(0 <= 20 * (i as int) <= 20 * (u32::MAX as int)) by (nonlinear_arith)
                requires
                    i <= u32::MAX,
            ;
            let y: i64 = base + 20 * (i as i64);
            input.push(
                Pin {
                    value,
                    cid: 0,
                    pid: i + 1,
                    ioc: INPUT,
                    hitbox: Hitbox {
                        rect: Rect { x: 4, y, w: 5, h: 5 },
                        kind: HitboxType::Pin(0, i + 1, INPUT),
                    },
                },
            );
            assert(input@[i as int].pid == i + 1);
            assert(input@[i as int].value@ == fresh_value(bus, bits));

            assert(input@[i as int].hitbox.rect.near(origin));
            i += 1;
        }
        let out_value = if bus {
            PinValue::undefined(bits)
        } else {
            PinValue::Single(Signal::Undefined)
        };
        let out_y: i64 = if bus { 32 } else { 33 };
        let output = Pin {
            value: out_value,
            cid: 0,
            pid: 1,
            ioc: OUTPUT,
            hitbox: Hitbox {
                rect: Rect { x: 73, y: out_y, w: 5, h: 5 },
                kind: HitboxType::Pin(0, 1, OUTPUT),
            },
        };
        Ok(
            LogicGate {
                input,
                output,
                num_input: num_inputs,
                kind,
                id: 0,
                position: origin,
                hitbox: Hitbox { rect: Rect { x: 0, y: 0, w: 50, h: 50 }, kind: HitboxType::Component },
                ref_pin_pos: Point { x: 6, y: 25 },
            },
        )
    }

    /// Sets the inputs to `signals` in order; inputs past the end of `signals` become
    /// undefined. More signals than inputs is an error, and changes nothing.
    pub fn set_input(&mut self, signals: Vec<Signal>) -> (r: Result<(), CircuitError>)
        requires
            old(self).wf(),
        ensures
            final(self).wf(),
            final(self).same_shape(old(self)),
            signals.len() > old(self).num_input <==> r == Err::<(), CircuitError>(CircuitError::TooManySignals),
            signals.len() <= old(self).num_input <==> r is Ok,
            r is Err ==> *final(self) == *old(self),
            r is Ok ==> {
                &&& forall|i: int|
                    0 <= i < final(self).input.len() ==> (#[trigger] final(self).input@[i]).value@
                        == PinValueModel::Single(padded(signals@, i))
                &&& final(self).output == old(self).output
            },
    {
        if signals.len() > self.num_input {
            return Err(CircuitError::TooManySignals);
        }
        let ghost start = *self;
        let mut i: usize = 0;
        while i < self.num_input
            invariant
                self.wf(),
                self.same_shape(&start),
                self.output == start.output,
                signals.len() <= self.num_input,
                i <= self.num_input,
                forall|k: int|
                    0 <= k < i ==> (#[trigger] self.input@[k]).value@ == PinValueModel::Single(
                        padded(signals@, k),
                    ),
            decreases self.num_input - i,
        {
            let s = if i < signals.len() {
                signals[i]
            } else {
                Signal::Undefined
            };
            let p = pin_with_value(&self.input[i], PinValue::Single(s));
            self.input.set(i, p);
            i += 1;
        }
        Ok(())
    }

    /// Sets the inputs of a bus gate to the buses `signals` in order; inputs past the end of
    /// `signals` become buses of `bits` undefined signals. More buses than inputs is an error,
    /// and changes nothing.
    pub fn set_bus_input(&mut self, signals: Vec<Vec<Signal>>, bits: usize) -> (r: Result<(), CircuitError>)
        requires
            old(self).wf(),
        ensures
            final(self).wf(),
            final(self).same_shape(old(self)),
            signals.len() > old(self).num_input <==> r == Err::<(), CircuitError>(CircuitError::TooManySignals),
            signals.len() <= old(self).num_input <==> r is Ok,
            r is Err ==> *final(self) == *old(self),
            r is Ok ==> {
                &&& forall|i: int|
                    0 <= i < final(self).input.len() ==> (#[trigger] final(self).input@[i]).value@
                        == PinValueModel::Multiple(
                        if i < signals.len() {
                            signals@[i]@
                        } else {
                            Seq::new(bits as nat, |k: int| Signal::Undefined)
                        },
                    )
                &&& final(self).output == old(self).output
            },
    {
        if signals.len() > self.num_input {
            return Err(CircuitError::TooManySignals);
        }
        let ghost start = *self;
        let mut i: usize = 0;
        while i < self.num_input
            invariant
                self.wf(),
                self.same_shape(&start),
                self.output == start.output,
                signals.len() <= self.num_input,
                i <= self.num_input,
                forall|k: int|
                    0 <= k < i ==> (#[trigger] self.input@[k]).value@ == PinValueModel::Multiple(
                        if k < signals.len() {
                            signals@[k]@
                        } else {
                            Seq::new(bits as nat, |j: int| Signal::Undefined)
                        },
                    ),
            decreases self.num_input - i,
        {
            let bus = if i < signals.len() {
                copy_signals(&signals[i])
            } else {
                undefined_bus(bits)
            };
            let p = pin_with_value(&self.input[i], PinValue::Multiple(bus));
            self.input.set(i, p);
            i += 1;
        }
        Ok(())
    }

    /// Recomputes the output from the inputs. A bus input cannot be evaluated yet: that is
    /// an error, and changes nothing.
    pub fn get_output(&mut self) -> (r: Result<(), CircuitError>)
        requires
            old(self).wf(),
        ensures
            final(self).wf(),
            final(self).same_shape(old(self)),
            final(self).input == old(self).input,
            all_single(old(self).input@) <==> r is Ok,
            r is Err ==> r == Err::<(), CircuitError>(CircuitError::Unsupported) && *final(self) == *old(self),
            r is Ok ==> final(self).output.value == PinValue::Single(
                eval_gate(old(self).kind, signals_of(old(self).input@)),
            ),
    {
        let mut signals: Vec<Signal> = Vec::new();
        let mut i: usize = 0;
        while i < self.num_input
            invariant
                self.wf(),
                i <= self.num_input,
                signals@ == signals_of(self.input@.subrange(0, i as int)),
                all_single(self.input@.subrange(0, i as int)),
            decreases self.num_input - i,
        {
            match &self.input[i].value {
                PinValue::Single(s) => {
                    signals.push(*s);
                },
                PinValue::Multiple(_) => {
                    assert(!(self.input@[i as int].value is Single));
                    return Err(CircuitError::Unsupported);
                },
            }
            assert(self.input@.subrange(0, i + 1).drop_last() =~= self.input@.subrange(0, i as int));
            i += 1;
            assert(signals@ =~= signals_of(self.input@.subrange(0, i as int)));
        }
        assert(self.input@.subrange(0, i as int) =~= self.input@);
        let out = evaluate(self.kind, &signals);
        let p = pin_with_value(&self.output, PinValue::Single(out));
        self.output = p;
        Ok(())
    }

    /// Gives the logic gate the id `id`, also in each pin and in each pin hitbox's tag.
    pub fn set_gate_id(&mut self, id: usize)
        requires
            old(self).wf(),
        ensures
            final(self).wf(),
            final(self).id == id,
            final(self).input.len() == old(self).input.len(),
            forall|i: int| 0 <= i < final(self).input.len() ==> #[trigger] final(self).input@[i] == old(self).input@[i].with_cid(id),
            final(self).output == old(self).output.with_cid(id),
            final(self).num_input == old(self).num_input,
            final(self).kind == old(self).kind,
            final(self).position == old(self).position,
            final(self).hitbox == old(self).hitbox,
            final(self).ref_pin_pos == old(self).ref_pin_pos,
    {
        let ghost start = *self;
        self.id = id;
        let mut i: usize = 0;
        while i < self.input.len()
            invariant
                i <= self.input.len(),
                self.input.len() == start.input.len(),
                self.id == id,
                start.wf(),
                forall|k: int| 0 <= k < i ==> #[trigger] self.input@[k] == start.input@[k].with_cid(id),
                forall|k: int| i <= k < self.input.len() ==> #[trigger] self.input@[k] == start.input@[k],
                self.output == start.output,
                self.num_input == start.num_input,
                self.kind == start.kind,
                self.position == start.position,
                self.hitbox == start.hitbox,
                self.ref_pin_pos == start.ref_pin_pos,
            decreases self.input.len() - i,
        {
            self.input[i].set_cid(id);
            i += 1;
        }
        self.output.set_cid(id);
    }

    /// The pin with port id `pid` and role `ioc`.
    pub fn get_pin(&self, pid: usize, ioc: usize) -> (r: Result<&Pin, CircuitError>)
        requires
            self.wf(),
        ensures
            (exists|i: int| 0 <= i < self.pins().len() && self.pins()[i].pid == pid && self.pins()[i].ioc == ioc)
                <==> r is Ok,
            r is Err ==> r == Err::<&Pin, CircuitError>(CircuitError::NoSuchPin),
            r matches Ok(p) ==> p.pid == pid && p.ioc == ioc && self.pins().contains(*p),
    {
        if ioc == OUTPUT && pid == 1 {
            assert(self.pins()[self.input.len() as int] == self.output);
            return Ok(&self.output);
        }
        if ioc == INPUT && 1 <= pid && pid <= self.num_input {
            assert(self.pins()[pid - 1] == self.input@[pid - 1]);
            return Ok(&self.input[pid - 1]);
        }
        assert forall|i: int| 0 <= i < self.pins().len() implies !(self.pins()[i].pid == pid
            && self.pins()[i].ioc == ioc) by {
            if i < self.input.len() {
                assert(self.pins()[i] == self.input@[i]);
            }
        }
        Err(CircuitError::NoSuchPin)
    }

    /// Moves the logic gate to `position`; its pins and its reference pin move with it.
    pub fn update_gate_position(&mut self, position: Point)
        requires
            old(self).wf(),
            position.in_canvas(),
        ensures
            final(self).wf(),
            final(self).position == position,
            final(self).input.len() == old(self).input.len(),
            forall|i: int| 0 <= i < final(self).input.len() ==> #[trigger] final(self).input@[i] == old(self).input@[i].shifted(old(self).position, position),
            final(self).output == old(self).output.shifted(old(self).position, position),
            final(self).hitbox == (Hitbox { rect: Rect { x: position.x, y: position.y, ..old(self).hitbox.rect }, ..old(self).hitbox }),
            final(self).ref_pin_pos == old(self).ref_pin_pos.shifted(old(self).position, position),
            final(self).num_input == old(self).num_input,
            final(self).kind == old(self).kind,
            final(self).id == old(self).id,
    {
        let ghost start = *self;
        let from = self.position;
        let mut i: usize = 0;
        while i < self.input.len()
            invariant
                i <= self.input.len(),
                self.input.len() == start.input.len(),
                start.wf(),
                from == start.position,
                position.in_canvas(),
                forall|k: int| 0 <= k < i ==> #[trigger] self.input@[k] == start.input@[k].shifted(from, position),
                forall|k: int| i <= k < self.input.len() ==> #[trigger] self.input@[k] == start.input@[k],
                *self == (LogicGate { input: self.input, ..start }),
            decreases self.input.len() - i,
        {
            self.input[i].shift(from, position);
            i += 1;
        }
        self.output.shift(from, position);
        self.position = position;
        self.hitbox.rect.x = position.x;
        self.hitbox.rect.y = position.y;
        self.ref_pin_pos.shift(from, position);
    }

    /// The picture that shows the logic gate: one per kind, for single-signal and for bus gates.
    pub fn load_gate_image(&self) -> (r: &'static str)
        ensures
            self.output.value is Single ==> r@ == gate_image_path(self.kind)@,
            self.output.value is Multiple ==> r@ == bus_gate_image_path(self.kind)@,
    {
        match (&self.output.value, self.kind) {
            (PinValue::Single(_), kind) => gate_image(kind),
            (PinValue::Multiple(_), kind) => bus_gate_image(kind),
        }
    }

    /// The hitboxes of the logic gate's pins: inputs in order, then the output.
    pub fn gate_pins_hitbox(&self) -> (r: Vec<Hitbox>)
        ensures
            r@ == self.pins().map_values(|p: Pin| p.hitbox),
    {
        let mut r: Vec<Hitbox> = Vec::new();
        let mut i: usize = 0;
        while i < self.input.len()
            invariant
                i <= self.input.len(),
                r@ == self.input@.subrange(0, i as int).map_values(|p: Pin| p.hitbox),
            decreases self.input.len() - i,
        {
            r.push(self.input[i].hitbox);
            i += 1;
            assert(r@ =~= self.input@.subrange(0, i as int).map_values(|p: Pin| p.hitbox));
        }
        r.push(self.output.hitbox);
        assert(self.input@.subrange(0, i as int) =~= self.input@);
        assert(r@ =~= self.pins().map_values(|p: Pin| p.hitbox));
        r
    }
}

/// A bus of `bits` undefined signals.
pub fn undefined_bus(bits: usize) -> (r: Vec<Signal>)
    ensures
        r@ == Seq::new(bits as nat, |k: int| Signal::Undefined),
{
    let mut v: Vec<Signal> = Vec::new();
    let mut i: usize = 0;
    while i < bits
        invariant
            i <= bits,
            v@ == Seq::new(i as nat, |k: int| Signal::Undefined),
        decreases bits - i,
    {
        v.push(Signal::Undefined);
        i += 1;
        assert(v@ =~= Seq::new(i as nat, |k: int| Signal::Undefined));
    }
    v
}

/// The picture of a single-signal gate of kind `kind`.
pub open spec fn gate_image_path(kind: LogicGates) -> &'static str {
    match kind {
        LogicGates::And => "/gates/normal/input2/and.png",
        LogicGates::Or => "/gates/normal/input2/or.png",
        LogicGates::Not => "/gates/normal/input2/not.png",
        LogicGates::Nand => "/gates/normal/input2/nand.png",
        LogicGates::Nor => "/gates/normal/input2/nor.png",
        LogicGates::Xor => "/gates/normal/input2/xor.png",
        LogicGates::Xnor => "/gates/normal/input2/xnor.png",
    }
}

/// The picture of a bus gate of kind `kind`.
pub open spec fn bus_gate_image_path(kind: LogicGates) -> &'static str {
    match kind {
        LogicGates::And => "/path/to/and_multiple.png",
        LogicGates::Or => "/path/to/or_multiple.png",
        LogicGates::Not => "/path/to/not_multiple.png",
        LogicGates::Nand => "/path/to/nand_multiple.png",
        LogicGates::Nor => "/path/to/nor_multiple.png",
        LogicGates::Xor => "/path/to/xor_multiple.png",
        LogicGates::Xnor => "/path/to/xnor_multiple.png",
    }
}

fn gate_image(kind: LogicGates) -> (r: &'static str)
    ensures
        r == gate_image_path(kind),
{
    match kind {
        LogicGates::And => "/gates/normal/input2/and.png",
        LogicGates::Or => "/gates/normal/input2/or.png",
        LogicGates::Not => "/gates/normal/input2/not.png",
        LogicGates::Nand => "/gates/normal/input2/nand.png",
        LogicGates::Nor => "/gates/normal/input2/nor.png",
        LogicGates::Xor => "/gates/normal/input2/xor.png",
        LogicGates::Xnor => "/gates/normal/input2/xnor.png",
    }
}

fn bus_gate_image(kind: LogicGates) -> (r: &'static str)
    ensures
        r == bus_gate_image_path(kind),
{
    match kind {
        LogicGates::And => "/path/to/and_multiple.png",
        LogicGates::Or => "/path/to/or_multiple.png",
        LogicGates::Not => "/path/to/not_multiple.png",
        LogicGates::Nand => "/path/to/nand_multiple.png",
        LogicGates::Nor => "/path/to/nor_multiple.png",
        LogicGates::Xor => "/path/to/xor_multiple.png",
        LogicGates::Xnor => "/path/to/xnor_multiple.png",
    }
}

} // verus!
