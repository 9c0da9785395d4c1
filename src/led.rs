use vstd::prelude::*;

use crate::structure::{Signal, PinValue, PinValueModel, Pin, Hitbox, HitboxType, Rect, Point, CircuitError, INPUT};

verus! {

/// A lamp with one input pin that shows the signal it receives.
#[derive(Debug, Clone, PartialEq, Eq)]
pub struct Led {
    pub id: usize,
    pub input: Pin,
    pub position: Point,
    pub hitbox: Hitbox,
    pub ref_pin_pos: Point,
}

impl Led {
    /// The invariant of a lamp: one input pin numbered 1, ids in place, geometry near the
    /// lamp's position.
    pub open spec fn wf(&self) -> bool {
        &&& self.input.pid == 1
        &&& self.input.ioc == INPUT
        &&& self.input.cid == self.id
        &&& self.input.tagged()
        &&& self.input.hitbox.rect.near(self.position)
        &&& self.position.in_canvas()
        &&& self.hitbox.rect.near(self.position)
        &&& self.ref_pin_pos.near(self.position)
    }

    pub open spec fn pins(&self) -> Seq<Pin> {
        seq![self.input]
    }

    /// A lamp whose input is undefined.
    pub fn new() -> (r: Led)
        ensures
            r.wf(),
            r.id == 0,
            r.input.value@ == PinValueModel::Single(Signal::Undefined),
            r.input.hitbox.rect == (Rect { x: 22, y: 27, w: 5, h: 5 }),
            r.position == (Point { x: 0, y: 0 }),
    {
        Led {
            id: 0,
            input: Pin {
                value: PinValue::Single(Signal::Undefined),
                cid: 0,
                pid: 1,
                ioc: INPUT,
                hitbox: Hitbox { rect: Rect { x: 22, y: 27, w: 5, h: 5 }, kind: HitboxType::Pin(0, 1, INPUT) },
            },
            position: Point { x: 0, y: 0 },
            hitbox: Hitbox { rect: Rect { x: 32, y: 20, w: 20, h: 20 }, kind: HitboxType::Component },
            ref_pin_pos: Point { x: 25, y: 30 },
        }
    }

    /// Gives the lamp the id `id`, also in its pin and in the pin hitbox's tag.
    pub fn set_id(&mut self, id: usize)
        requires
            old(self).wf(),
        ensures
            final(self).wf(),
            *final(self) == (Led { id, input: old(self).input.with_cid(id), ..*old(self) }),
    {
        self.id = id;
        self.input.set_cid(id);
    }

    /// The pin with port id `pid` and role `ioc`: only the input, port 1, exists.
    pub fn get_pin(&self, pid: usize, ioc: usize) -> (r: Result<&Pin, CircuitError>)
        requires
            self.wf(),
        ensures
            (pid == 1 && ioc == INPUT) <==> r is Ok,
            r is Err ==> r == Err::<&Pin, CircuitError>(CircuitError::NoSuchPin),
            r matches Ok(p) ==> *p == self.input,
    {
        if ioc == INPUT && pid == self.input.pid {
            Ok(&self.input)
        } else {
            Err(CircuitError::NoSuchPin)
        }
    }

    /// Moves the lamp to `position`; its pin, hitbox and reference pin move with it.
    pub fn update_led_position(&mut self, position: Point)
        requires
            old(self).wf(),
            position.in_canvas(),
        ensures
            final(self).wf(),
            *final(self) == (Led {
                position,
                input: old(self).input.shifted(old(self).position, position),
                hitbox: Hitbox { rect: old(self).hitbox.rect.shifted(old(self).position, position), ..old(self).hitbox },
                ref_pin_pos: old(self).ref_pin_pos.shifted(old(self).position, position),
                ..*old(self)
            }),
    {
        let from = self.position;
        self.input.shift(from, position);
        self.hitbox.rect.shift(from, position);
        self.ref_pin_pos.shift(from, position);
        self.position = position;
    }

    /// The hitbox of the lamp's pin.
    pub fn led_pin_hitbox(&self) -> (r: Vec<Hitbox>)
        ensures
            r@ == seq![self.input.hitbox],
    {
        let mut r: Vec<Hitbox> = Vec::new();
        r.push(self.input.hitbox);
        r
    }

    /// The picture that shows the lamp before it has received a signal.
    pub fn load_led_image(&self) -> (r: &'static str)
        ensures
            r@ == "/leds/normal/led_undefined.png"@,
    {
        proof {
            reveal_strlit("/leds/normal/led_undefined.png");
        }
        "/leds/normal/led_undefined.png"
    }

    /// The picture that shows the signal the lamp receives; a bus has none.
    pub fn update_led_image(&self) -> (r: Option<&'static str>)
        ensures
            self.input.value == PinValue::Single(Signal::On) ==> (r matches Some(p) && p@ == "/leds/normal/led_high_green.png"@),
            self.input.value == PinValue::Single(Signal::Off) ==> (r matches Some(p) && p@ == "/leds/normal/led_low.png"@),
            self.input.value == PinValue::Single(Signal::Undefined) ==> (r matches Some(p) && p@
                == "/leds/normal/led_undefined.png"@),
            self.input.value is Multiple ==> r is None,
    {
        proof {
            reveal_strlit("/leds/normal/led_high_green.png");
            reveal_strlit("/leds/normal/led_low.png");
            reveal_strlit("/leds/normal/led_undefined.png");
        }
        match &self.input.value {
            PinValue::Single(Signal::On) => Some("/leds/normal/led_high_green.png"),
            PinValue::Single(Signal::Off) => Some("/leds/normal/led_low.png"),
            PinValue::Single(Signal::Undefined) => Some("/leds/normal/led_undefined.png"),
            PinValue::Multiple(_) => None,
        }
    }
}

} // verus!
