use vstd::prelude::*;
use vstd::string::StringExecFns;

verus! {

/// The value carried by a pin or a wire.
#[derive(Debug, Clone, Copy, PartialEq, Eq, Structural)]
pub enum Signal {
    Off,
    On,
    Undefined,
}

impl Signal {
    /// The upper-case name of the signal, as shown to a user.
    pub fn name(&self) -> (r: &'static str)
        ensures
            r@ == signal_text(*self),
    {
        proof {
            reveal_strlit("OFF");
            reveal_strlit("ON");
            reveal_strlit("UNDEFINED");
        }
        match self {
            Signal::Off => {
                assert("OFF"@ =~= signal_text(*self));
                "OFF"
            },
            Signal::On => {
                assert("ON"@ =~= signal_text(*self));
                "ON"
            },
            Signal::Undefined => {
                assert("UNDEFINED"@ =~= signal_text(*self));
                "UNDEFINED"
            },
        }
    }
}

/// The kinds of combinational gate.
#[derive(Debug, Clone, Copy, PartialEq, Eq, Structural)]
pub enum LogicGates {
    And,
    Or,
    Not,
    Nand,
    Nor,
    Xor,
    Xnor,
}

/// The value of a pin: one signal, or a bus of signals.
#[derive(Debug, Clone, PartialEq, Eq)]
pub enum PinValue {
    Single(Signal),
    Multiple(Vec<Signal>),
}

/// The abstract value of a pin: a bus is seen as the sequence of its signals.
pub enum PinValueModel {
    Single(Signal),
    Multiple(Seq<Signal>),
}

impl View for PinValue {
    type V = PinValueModel;

    open spec fn view(&self) -> PinValueModel {
        match self {
            PinValue::Single(s) => PinValueModel::Single(*s),
            PinValue::Multiple(v) => PinValueModel::Multiple(v@),
        }
    }
}

/// Copies a sequence of signals.
pub fn copy_signals(v: &Vec<Signal>) -> (r: Vec<Signal>)
    ensures
        r@ == v@,
{
    let mut r: Vec<Signal> = Vec::new();
    let mut i: usize = 0;
    while i < v.len()
        invariant
            i <= v.len(),
            r@ == v@.subrange(0, i as int),
        decreases v.len() - i,
    {
        r.push(v[i]);
        i += 1;
        assert(r@ =~= v@.subrange(0, i as int));
    }
    assert(r@ =~= v@);
    r
}

impl PinValue {
    /// A copy of this value.
    pub fn duplicate(&self) -> (r: PinValue)
        ensures
            r@ == self@,
    {
        match self {
            PinValue::Single(s) => PinValue::Single(*s),
            PinValue::Multiple(v) => PinValue::Multiple(copy_signals(v)),
        }
    }

    /// A value of `bits` signals, all undefined: a single signal for one bit, else a bus.
    pub fn undefined(bits: usize) -> (r: PinValue)
        ensures
            bits <= 1 ==> r@ == PinValueModel::Single(Signal::Undefined),
            bits > 1 ==> r@ == PinValueModel::Multiple(Seq::new(bits as nat, |i: int| Signal::Undefined)),
    {
        if bits <= 1 {
            PinValue::Single(Signal::Undefined)
        } else {
            let mut v: Vec<Signal> = Vec::new();
            let mut i: usize = 0;
            while i < bits
                invariant
                    i <= bits,
                    v@ == Seq::new(i as nat, |k: int| Signal::Undefined),
                decreases bits - i,
            {
                v.push(Signal::Undefined);
                i += 1;
                assert(v@ =~= Seq::new(i as nat, |k: int| Signal::Undefined));
            }
            PinValue::Multiple(v)
        }
    }
}

/// How a signal is written: OFF, ON or UNDEFINED.
pub open spec fn signal_text(s: Signal) -> Seq<char> {
    match s {
        Signal::Off => seq!['O', 'F', 'F'],
        Signal::On => seq!['O', 'N'],
        Signal::Undefined => seq!['U', 'N', 'D', 'E', 'F', 'I', 'N', 'E', 'D'],
    }
}

/// The signals written in order, separated by a comma and a space.
pub open spec fn signals_text(s: Seq<Signal>) -> Seq<char>
    decreases s.len(),
{
    if s.len() == 0 {
        seq![]
    } else if s.len() == 1 {
        signal_text(s[0])
    } else {
        signals_text(s.drop_last()) + seq![',', ' '] + signal_text(s.last())
    }
}

/// How a value is written: a single signal alone, a bus as its signals within brackets.
pub open spec fn value_text(v: PinValueModel) -> Seq<char> {
    match v {
        PinValueModel::Single(s) => signal_text(s),
        PinValueModel::Multiple(bus) => seq!['['] + signals_text(bus) + seq![']'],
    }
}

impl PinValue {
    /// The value as text, such as `ON` or `[ON, OFF]`.
    pub fn to_text(&self) -> (r: String)
        ensures
            r@ == value_text(self@),
    {
        match self {
            PinValue::Single(s) => {
                String::from_str(s.name())
            },
            PinValue::Multiple(bus) => {
                let mut r = String::from_str("[");
                proof {
                    reveal_strlit("[");
                }
                let mut i: usize = 0;
                while i < bus.len()
                    invariant
                        i <= bus.len(),
                        r@ == seq!['['] + signals_text(bus@.subrange(0, i as int)),
                    decreases bus.len() - i,
                {
                    let ghost pre = bus@.subrange(0, i as int);
                    let ghost post = bus@.subrange(0, i + 1);
                    assert(post.drop_last() =~= pre);
                    if i > 0 {
                        r.append(", ");
                        proof {
                            reveal_strlit(", ");
                        }
                    }
                    let name = bus[i].name();
                    r.append(name);
                    proof {
                        if i == 0 {
                            assert(pre =~= Seq::<Signal>::empty());
                        }
                        assert(r@ =~= seq!['['] + signals_text(post));
                    }
                    i += 1;
                }
                r.append("]");
                proof {
                    reveal_strlit("]");
                    assert(bus@.subrange(0, bus.len() as int) =~= bus@);
                    assert(r@ =~= value_text(self@));
                }
                r
            },
        }
    }
}

/// The role a pin plays: 0 marks an output (it drives its net), 1 an input.
pub const OUTPUT: usize = 0;

pub const INPUT: usize = 1;

/// What a hitbox belongs to. A pin hitbox carries the pin's address: (component id, port id, role).
#[derive(Debug, Clone, Copy, PartialEq, Eq, Structural)]
pub enum HitboxType {
    Pin(usize, usize, usize),
    Wire,
    Component,
}

impl HitboxType {
    pub open spec fn is_pin_spec(self) -> bool {
        self is Pin
    }

    pub fn is_pin(&self) -> (r: bool)
        ensures
            r == self.is_pin_spec(),
    {
        match self {
            HitboxType::Pin(..) => true,
            _ => false,
        }
    }
}

/// How far from the origin a placed element, and how far from its element a pin, may lie.
pub const CANVAS_LIMIT: i64 = 1_099_511_627_776;

/// A point of the canvas, in whole canvas units.
#[derive(Debug, Clone, Copy, PartialEq, Eq, Structural)]
pub struct Point {
    pub x: i64,
    pub y: i64,
}

impl Point {
    /// Both coordinates lie within `CANVAS_LIMIT` of the origin.
    pub open spec fn in_canvas(self) -> bool {
        &&& -CANVAS_LIMIT <= self.x <= CANVAS_LIMIT
        &&& -CANVAS_LIMIT <= self.y <= CANVAS_LIMIT
    }

    /// This point lies within `CANVAS_LIMIT` of `p` on both axes.
    pub open spec fn near(self, p: Point) -> bool {
        &&& -CANVAS_LIMIT <= self.x - p.x <= CANVAS_LIMIT
        &&& -CANVAS_LIMIT <= self.y - p.y <= CANVAS_LIMIT
    }

    /// This point moved by the difference between `to` and `from`.
    pub open spec fn shifted(self, from: Point, to: Point) -> Point {
        Point { x: (self.x + (to.x - from.x)) as i64, y: (self.y + (to.y - from.y)) as i64 }
    }

    /// Moves this point by the difference between `to` and `from`.
    pub fn shift(&mut self, from: Point, to: Point)
        requires
            from.in_canvas(),
            to.in_canvas(),
            old(self).near(from),
        ensures
            *final(self) == old(self).shifted(from, to),
            final(self).near(to),
    {
        self.x = self.x + (to.x - from.x);
        self.y = self.y + (to.y - from.y);
    }
}

/// An axis-aligned rectangle: its top-left corner, width and height.
#[derive(Debug, Clone, Copy, PartialEq, Eq, Structural)]
pub struct Rect {
    pub x: i64,
    pub y: i64,
    pub w: i64,
    pub h: i64,
}

impl Rect {
    /// A rectangle of size at most `CANVAS_LIMIT` whose corner lies near `p`.
    pub open spec fn near(self, p: Point) -> bool {
        &&& 0 <= self.w <= CANVAS_LIMIT
        &&& 0 <= self.h <= CANVAS_LIMIT
        &&& self.corner().near(p)
    }

    pub open spec fn corner(self) -> Point {
        Point { x: self.x, y: self.y }
    }

    /// This rectangle moved by the difference between `to` and `from`.
    pub open spec fn shifted(self, from: Point, to: Point) -> Rect {
        Rect { x: self.corner().shifted(from, to).x, y: self.corner().shifted(from, to).y, ..self }
    }

    /// Moves this rectangle by the difference between `to` and `from`.
    pub fn shift(&mut self, from: Point, to: Point)
        requires
            from.in_canvas(),
            to.in_canvas(),
            old(self).near(from),
        ensures
            *final(self) == old(self).shifted(from, to),
            final(self).near(to),
            final(self).wf(),
    {
        self.x = self.x + (to.x - from.x);
        self.y = self.y + (to.y - from.y);
    }

    /// A rectangle of non-negative size whose far edges are representable.
    pub open spec fn wf(self) -> bool {
        &&& 0 <= self.w
        &&& 0 <= self.h
        &&& self.x + self.w <= i64::MAX
        &&& self.y + self.h <= i64::MAX
    }

    /// Two rectangles overlap when they share a point; touching edges count.
    pub open spec fn overlaps_spec(self, o: Rect) -> bool {
        &&& self.x <= o.x + o.w
        &&& self.x + self.w >= o.x
        &&& self.y <= o.y + o.h
        &&& self.y + self.h >= o.y
    }

    pub fn overlaps(&self, o: &Rect) -> (r: bool)
        requires
            self.wf(),
            o.wf(),
        ensures
            r == self.overlaps_spec(*o),
    {
        self.x <= o.x + o.w && self.x + self.w >= o.x && self.y <= o.y + o.h && self.y + self.h
            >= o.y
    }
}

/// A rectangle used to infer connectivity, with what it belongs to.
#[derive(Debug, Clone, Copy, PartialEq, Eq, Structural)]
pub struct Hitbox {
    pub rect: Rect,
    pub kind: HitboxType,
}

/// A pin of an element.
#[derive(Debug, Clone, PartialEq, Eq)]
pub struct Pin {
    pub value: PinValue,
    /// The id of the element that owns the pin; 0 until the element joins a circuit.
    pub cid: usize,
    /// The port id, unique among the pins of one role of the element.
    pub pid: usize,
    /// The role: `OUTPUT` or `INPUT`.
    pub ioc: usize,
    pub hitbox: Hitbox,
}

impl Pin {
    /// A pin whose hitbox is tagged with its own address.
    pub open spec fn tagged(self) -> bool {
        self.hitbox.kind == HitboxType::Pin(self.cid, self.pid, self.ioc)
    }

    pub open spec fn is_output(self) -> bool {
        self.ioc == OUTPUT
    }

    /// This pin moved by the difference between `to` and `from`.
    pub open spec fn shifted(self, from: Point, to: Point) -> Pin {
        Pin { hitbox: Hitbox { rect: self.hitbox.rect.shifted(from, to), ..self.hitbox }, ..self }
    }

    /// This pin with the component id `id`, in its own field and in its hitbox's tag.
    pub open spec fn with_cid(self, id: usize) -> Pin {
        Pin { cid: id, hitbox: Hitbox { kind: HitboxType::Pin(id, self.pid, self.ioc), ..self.hitbox }, ..self }
    }

    /// Gives the pin the component id `id`, in its own field and in its hitbox's tag.
    pub fn set_cid(&mut self, id: usize)
        ensures
            *final(self) == old(self).with_cid(id),
    {
        self.cid = id;
        self.hitbox.kind = HitboxType::Pin(id, self.pid, self.ioc);
    }

    /// Moves the pin's hitbox by the difference between `to` and `from`.
    pub fn shift(&mut self, from: Point, to: Point)
        requires
            from.in_canvas(),
            to.in_canvas(),
            old(self).hitbox.rect.near(from),
        ensures
            *final(self) == old(self).shifted(from, to),
            final(self).hitbox.rect.near(to),
    {
        self.hitbox.rect.shift(from, to);
    }
}

/// What can go wrong when building or running a circuit.
#[derive(Debug, Clone, Copy, PartialEq, Eq, Structural)]
pub enum CircuitError {
    /// A gate kind id other than 0 to 6.
    InvalidGateKind(u32),
    /// A Not gate asked for with another input count than one.
    NotGateArity(usize),
    /// A source value other than 0 or 1.
    InvalidSourceValue(usize),
    /// More signals than the logic gate has inputs.
    TooManySignals,
    /// An operation that the element does not offer, or that is not built yet.
    Unsupported,
    /// No pin has this port id and role.
    NoSuchPin,
    /// No element of the circuit has this id.
    NoSuchElement,
    /// Two output pins, given by their hitboxes' positions among all hitboxes, share a net.
    ShortCircuit(usize, usize),
}

/// A straight piece of a drawn wire.
#[derive(Debug, Clone, Copy, PartialEq, Eq, Structural)]
pub struct WireSegment {
    pub start: Point,
    pub end: Point,
    pub hitbox: Hitbox,
}

/// A wire as drawn: its segments, whose hitboxes join whatever they overlap, and a list of
/// pin addresses (component id, role, port id) kept for reference; only the segments connect.
#[derive(Debug, Clone, PartialEq, Eq)]
pub struct Wire {
    pub pins: Vec<(usize, usize, usize)>,
    pub segments: Vec<WireSegment>,
}

impl Wire {
    /// The pins the wire joins, in order, to be walked with `iter()`.
    pub fn iter(&self) -> (r: &[(usize, usize, usize)])
        ensures
            r@ == self.pins@,
    {
        self.pins.as_slice()
    }
}

} // verus!
