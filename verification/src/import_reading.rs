//! What the references of an imported file mean: which temperature, and which channel.
use crate::fancontrol::{
    channel_for, foreign, nth_temperature, temperature_for, ForeignView,
};
use crate::presets::{HardwareView, SensorView};
use crate::text::{
    digit, digits, digits_value, index_in, is_digit, kept, parts_of, split_to, unsigned_part, Text,
};
use crate::units::Quantity;
use vstd::prelude::*;

verus! {

// --- Parts ---------------------------------------------------------------------------------------

/// Whether a mark stands nowhere in a text.
pub open spec fn unmarked(s: Text, mark: char) -> bool {
    forall|k: int| 0 <= k < s.len() ==> #[trigger] s[k] != mark
}

proof fn lemma_stretch(s: Text, mark: char, from: nat, to: nat)
    requires
        from <= to <= s.len(),
        split_to(s, mark, from).1.len() == 0,
        forall|k: int| from <= k < to ==> #[trigger] s[k] != mark,
    ensures
        split_to(s, mark, to) == (
            split_to(s, mark, from).0,
            s.subrange(from as int, to as int),
        ),
    decreases to,
{
    let done = split_to(s, mark, from).0;
    if from == to {
        assert(split_to(s, mark, from).1 =~= s.subrange(from as int, to as int));
    } else {
        let before = (to - 1) as nat;
        lemma_stretch(s, mark, from, before);
        assert(s[to - 1] != mark);
        assert(s.subrange(from as int, before as int).push(s[to - 1]) =~= s.subrange(
            from as int,
            to as int,
        ));
    }
}

/// One stretch, and the mark behind it.
proof fn lemma_piece(s: Text, mark: char, from: nat, piece: Text)
    requires
        split_to(s, mark, from).1.len() == 0,
        from + piece.len() < s.len(),
        s.subrange(from as int, (from + piece.len()) as int) == piece,
        piece.len() > 0,
        unmarked(piece, mark),
        s[(from + piece.len()) as int] == mark,
    ensures
        split_to(s, mark, (from + piece.len() + 1) as nat) == (
            split_to(s, mark, from).0.push(piece),
            Seq::<char>::empty(),
        ),
{
    let to = (from + piece.len()) as nat;
    assert forall|k: int| from <= k < to implies #[trigger] s[k] != mark by {
        assert(piece[k - from] == s[k]);
    }
    lemma_stretch(s, mark, from, to);
}

/// Four parts that have no mark in them, each behind a mark, are the parts.
pub proof fn parts_are_what_stands_between_marks(mark: char, a: Text, b: Text, c: Text, d: Text)
    requires
        a.len() > 0,
        b.len() > 0,
        c.len() > 0,
        d.len() > 0,
        unmarked(a, mark),
        unmarked(b, mark),
        unmarked(c, mark),
        unmarked(d, mark),
    ensures
        parts_of(seq![mark] + a + seq![mark] + b + seq![mark] + c + seq![mark] + d, mark) == seq![
            a,
            b,
            c,
            d,
        ],
{
    let s = seq![mark] + a + seq![mark] + b + seq![mark] + c + seq![mark] + d;
    assert(split_to(s, mark, 0).1.len() == 0);
    assert(s[0] == mark);
    assert(split_to(s, mark, 1) == (Seq::<Text>::empty(), Seq::<char>::empty()));
    let at_b = (a.len() + 2) as nat;
    let at_c = at_b + b.len() + 1;
    let at_d = at_c + c.len() + 1;
    assert(s.subrange(1, (1 + a.len()) as int) =~= a);
    lemma_piece(s, mark, 1, a);
    assert(s.subrange(at_b as int, (at_b + b.len()) as int) =~= b);
    lemma_piece(s, mark, at_b, b);
    assert(s.subrange(at_c as int, (at_c + c.len()) as int) =~= c);
    lemma_piece(s, mark, at_c, c);
    assert(s.subrange(at_d as int, (at_d + d.len()) as int) =~= d);
    assert(s.len() == at_d + d.len());
    assert forall|k: int| at_d <= k < s.len() implies #[trigger] s[k] != mark by {
        assert(d[k - at_d] == s[k]);
    }
    lemma_stretch(s, mark, at_d, s.len());
    assert(parts_of(s, mark) =~= seq![a, b, c, d]);
}

proof fn lemma_parts(s: Text, mark: char, n: nat)
    requires
        n <= s.len(),
    ensures
        unmarked(split_to(s, mark, n).1, mark),
        forall|i: int|
            0 <= i < split_to(s, mark, n).0.len() ==> (#[trigger] split_to(s, mark, n).0[i]).len()
                > 0 && unmarked(split_to(s, mark, n).0[i], mark),
    decreases n,
{
    if n > 0 {
        lemma_parts(s, mark, (n - 1) as nat);
    }
}

// --- Numbers -------------------------------------------------------------------------------------

proof fn lemma_value(a: Text, b: Text, n: nat)
    requires
        n <= a.len(),
        n <= b.len(),
        forall|k: int| 0 <= k < n ==> a[k] == b[k],
    ensures
        digits_value(a, n) == digits_value(b, n),
    decreases n,
{
    if n > 0 {
        lemma_value(a, b, (n - 1) as nat);
    }
}

/// What is written in decimal reads back as the number it was.
pub proof fn numbers_read_back(n: nat)
    requires
        n <= usize::MAX,
    ensures
        index_in(digits(n)) == Some(n as int),
        digits(n).len() > 0,
        unmarked(digits(n), '/'),
{
    lemma_numbers(n);
    let s = digits(n);
    assert(is_digit(s[0]));
    assert(unsigned_part(s) == s);
    assert forall|k: int| 0 <= k < s.len() implies #[trigger] s[k] != '/' by {
        assert(is_digit(s[k]));
    }
}

proof fn lemma_numbers(n: nat)
    ensures
        digits(n).len() > 0,
        forall|k: int| 0 <= k < digits(n).len() ==> is_digit(#[trigger] digits(n)[k]),
        digits_value(digits(n), digits(n).len()) == n,
    decreases n,
{
    let s = digits(n);
    if n < 10 {
        assert(s[0] == digit(n as int));
        assert(digits_value(s, 0) == 0);
        assert(digits_value(s, 1) == n);
    } else {
        let front = digits(n / 10);
        let c = digit((n % 10) as int);
        lemma_numbers(n / 10);
        assert(s == front.push(c));
        assert forall|k: int| 0 <= k < s.len() implies is_digit(#[trigger] s[k]) by {
            if k < front.len() {
                assert(s[k] == front[k]);
            }
        }
        lemma_value(s, front, front.len());
        assert(s[s.len() - 1] == c);
        assert(digits_value(s, s.len()) == digits_value(s, front.len()) * 10 + (n % 10));
    }
}

// --- References ----------------------------------------------------------------------------------

/// A reference as it is written: the bus, a chip, a kind and a number, each behind a slash.
pub open spec fn reference(chip: Text, kind: Text, n: nat) -> Text {
    seq!['/'] + "lpc"@ + seq!['/'] + chip + seq!['/'] + kind + seq!['/'] + digits(n)
}

/// What is written as a reference is read as that one.
pub proof fn references_are_read_as_written(chip: Text, kind: Text, n: nat)
    requires
        chip.len() > 0,
        kind.len() > 0,
        unmarked(chip, '/'),
        unmarked(kind, '/'),
        n <= usize::MAX,
    ensures
        foreign(reference(chip, kind, n)) == Some(ForeignView { chip, kind, index: n as int }),
{
    reveal_strlit("lpc");
    numbers_read_back(n);
    parts_are_what_stands_between_marks('/', "lpc"@, chip, kind, digits(n));
}

/// Nothing but a reference is read as one: it names the bus, a chip and a kind that are not
/// empty, and a number.
pub proof fn only_references_are_read(raw: Text)
    requires
        foreign(raw) is Some,
    ensures
        ({
            let id = foreign(raw)->0;
            &&& id.chip.len() > 0 && unmarked(id.chip, '/')
            &&& id.kind.len() > 0 && unmarked(id.kind, '/')
            &&& 0 <= id.index <= usize::MAX
        }),
{
    lemma_parts(raw, '/', raw.len());
    let parts = parts_of(raw, '/');
    let (done, current) = split_to(raw, '/', raw.len());
    assert(parts == kept(done, current));
    assert forall|i: int| 0 <= i < parts.len() implies (#[trigger] parts[i]).len() > 0 && unmarked(
        parts[i],
        '/',
    ) by {
        if i < done.len() {
            assert(parts[i] == done[i]);
        }
    }
    let t = unsigned_part(parts[3]);
    lemma_not_below(t, t.len());
}

proof fn lemma_not_below(s: Text, n: nat)
    requires
        n <= s.len(),
        forall|i: int| 0 <= i < s.len() ==> is_digit(#[trigger] s[i]),
    ensures
        digits_value(s, n) >= 0,
    decreases n,
{
    if n > 0 {
        lemma_not_below(s, (n - 1) as nat);
        assert(is_digit(s[n - 1]));
    }
}

// --- Temperatures --------------------------------------------------------------------------------

/// Whether a sensor reads a temperature of a chip: its name starts with the chip and `/temp/`.
pub open spec fn measures(s: SensorView, chip: Text) -> bool {
    s.quantity == Quantity::Temperature && (chip + "/temp/"@).is_prefix_of(s.id)
}

/// How many of the first `k` sensors read a temperature of a chip.
pub open spec fn temperatures_before(sensors: Seq<SensorView>, chip: Text, k: nat) -> nat
    decreases k,
{
    if k == 0 {
        0
    } else {
        temperatures_before(sensors, chip, (k - 1) as nat) + if measures(sensors[k - 1], chip) {
            1nat
        } else {
            0
        }
    }
}

proof fn lemma_measures(s: SensorView, chip: Text)
    ensures
        measures(s, chip) <==> crate::fancontrol::is_temperature_of(s, chip),
{
    let prefix = chip + "/temp/"@;
    if prefix.len() <= s.id.len() {
        assert(s.id.subrange(0, prefix.len() as int) =~= s.id.take(prefix.len() as int));
        if prefix.is_prefix_of(s.id) {
            assert(s.id.take(prefix.len() as int) =~= prefix);
        }
    }
}

proof fn lemma_counts_grow(sensors: Seq<SensorView>, chip: Text, a: nat, b: nat)
    requires
        a <= b,
    ensures
        temperatures_before(sensors, chip, a) <= temperatures_before(sensors, chip, b),
    decreases b,
{
    if a < b {
        lemma_counts_grow(sensors, chip, a, (b - 1) as nat);
    }
}

/// A chip has one temperature at each number, if any: no two sensors have as many others before
/// them.
pub proof fn temperatures_are_numbered(sensors: Seq<SensorView>, chip: Text, a: nat, b: nat)
    requires
        a < b < sensors.len(),
        measures(sensors[a as int], chip),
        measures(sensors[b as int], chip),
    ensures
        temperatures_before(sensors, chip, a) < temperatures_before(sensors, chip, b),
{
    lemma_counts_grow(sensors, chip, (a + 1) as nat, b);
}

proof fn lemma_nth(sensors: Seq<SensorView>, chip: Text, index: int, i: nat) -> (k: nat)
    requires
        i <= sensors.len(),
        index >= 0,
    ensures
        match nth_temperature(sensors, chip, index, i as int) {
            Some(s) => i <= k < sensors.len() && sensors[k as int] == s && measures(s, chip)
                && temperatures_before(sensors, chip, k) == temperatures_before(sensors, chip, i)
                + index,
            None => temperatures_before(sensors, chip, sensors.len()) <= temperatures_before(
                sensors,
                chip,
                i,
            ) + index,
        },
    decreases sensors.len() - i,
{
    if i >= sensors.len() {
        i
    } else {
        lemma_measures(sensors[i as int], chip);
        if measures(sensors[i as int], chip) {
            if index == 0 {
                i
            } else {
                lemma_nth(sensors, chip, index - 1, i + 1)
            }
        } else {
            lemma_nth(sensors, chip, index, i + 1)
        }
    }
}

/// A reference to a temperature means the sensor at its number: one that reads a temperature of
/// the chip, and that has as many temperatures of the chip before it as the number says. It means
/// one wherever the chip has more temperatures than the number, and only there.
pub proof fn a_temperature_is_the_one_at_its_number(
    hw: HardwareView,
    subject: Text,
    chip: Text,
    n: nat,
) -> (k: nat)
    requires
        chip.len() > 0,
        unmarked(chip, '/'),
        n <= usize::MAX,
    ensures
        ({
            let found = temperature_for(reference(chip, "temperature"@, n), hw, subject).0;
            &&& found is Some <==> temperatures_before(hw.sensors, chip, hw.sensors.len()) > n
            &&& found matches Some(id) ==> k < hw.sensors.len() && hw.sensors[k as int].id == id
                && measures(hw.sensors[k as int], chip) && temperatures_before(
                hw.sensors,
                chip,
                k,
            ) == n
        }),
{
    reveal_strlit("temperature");
    references_are_read_as_written(chip, "temperature"@, n);
    let k = lemma_nth(hw.sensors, chip, n as int, 0);
    if nth_temperature(hw.sensors, chip, n as int, 0) is Some {
        lemma_counts_grow(hw.sensors, chip, (k + 1) as nat, hw.sensors.len());
    }
    k
}

/// Two numbers of one chip never mean the same sensor.
pub proof fn two_numbers_mean_two_temperatures(
    hw: HardwareView,
    subject: Text,
    chip: Text,
    n: nat,
    m: nat,
)
    requires
        chip.len() > 0,
        unmarked(chip, '/'),
        n <= usize::MAX,
        m <= usize::MAX,
        n != m,
        forall|a: int, b: int|
            0 <= a < b < hw.sensors.len() ==> (#[trigger] hw.sensors[a]).id != (
            #[trigger] hw.sensors[b]).id,
    ensures
        ({
            let one = temperature_for(reference(chip, "temperature"@, n), hw, subject).0;
            let other = temperature_for(reference(chip, "temperature"@, m), hw, subject).0;
            one is Some ==> one != other
        }),
{
    let a = a_temperature_is_the_one_at_its_number(hw, subject, chip, n);
    let b = a_temperature_is_the_one_at_its_number(hw, subject, chip, m);
}

/// A reference to anything but a temperature means no sensor.
pub proof fn only_temperatures_are_followed(identifier: Text, hw: HardwareView, subject: Text)
    requires
        temperature_for(identifier, hw, subject).0 is Some,
    ensures
        foreign(identifier) is Some,
        foreign(identifier)->0.kind == "temperature"@,
        exists|k: int|
            0 <= k < hw.sensors.len() && (#[trigger] hw.sensors[k]).id == temperature_for(
                identifier,
                hw,
                subject,
            ).0->0 && measures(hw.sensors[k], foreign(identifier)->0.chip) && temperatures_before(
                hw.sensors,
                foreign(identifier)->0.chip,
                k as nat,
            ) == foreign(identifier)->0.index,
{
    only_references_are_read(identifier);
    let id = foreign(identifier)->0;
    let k = lemma_nth(hw.sensors, id.chip, id.index, 0);
    assert(hw.sensors[k as int].id == temperature_for(identifier, hw, subject).0->0);
}

// --- Channels ------------------------------------------------------------------------------------

/// A reference to a control means the channel of that number on the same chip, wherever the
/// machine has it, and nothing where it has not.
pub proof fn a_control_is_the_channel_of_its_number(hw: HardwareView, chip: Text, n: nat)
    requires
        chip.len() > 0,
        unmarked(chip, '/'),
        n <= usize::MAX,
    ensures
        ({
            let found = channel_for(reference(chip, "control"@, n), hw);
            let wanted = chip + "/pwm/"@ + digits(n);
            &&& found is Some <==> exists|i: int|
                0 <= i < hw.channels.len() && (#[trigger] hw.channels[i]).id == wanted
            &&& found matches Some(id) ==> id == wanted
        }),
{
    reveal_strlit("control");
    references_are_read_as_written(chip, "control"@, n);
}

/// Nothing but a control is driven: a reference that means a channel is one to a control.
pub proof fn only_controls_are_driven(identifier: Text, hw: HardwareView)
    requires
        channel_for(identifier, hw) is Some,
    ensures
        foreign(identifier) is Some,
        foreign(identifier)->0.kind == "control"@,
        exists|i: int|
            0 <= i < hw.channels.len() && Some((#[trigger] hw.channels[i]).id) == channel_for(
                identifier,
                hw,
            ),
{
}

} // verus!
