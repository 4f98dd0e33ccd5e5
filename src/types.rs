use vstd::prelude::*;

verus! {

/// The type that a queue may be bound to, one for each variant of [`Value`].
#[derive(Debug, Clone, Copy, PartialEq, Eq, Structural)]
pub enum QueueType {
    Integer,
    Float,
    String,
    Null,
}

/// A typed unit of queue content.
///
/// A float is held as its IEEE-754 binary64 bit pattern (`f64::to_bits`), so
/// that the library itself computes on integers only.
#[derive(Debug)]
pub enum Value {
    Integer(i64),
    Float(u64),
    String(String),
    Null,
}

/// The bits of a binary64 NaN: all exponent bits set and a non-zero fraction.
pub open spec fn is_nan_bits(b: u64) -> bool {
    &&& b & 0x7ff0_0000_0000_0000u64 == 0x7ff0_0000_0000_0000u64
    &&& b & 0x000f_ffff_ffff_ffffu64 != 0
}

/// The bits of a binary64 zero, of either sign.
pub open spec fn is_zero_bits(b: u64) -> bool {
    b & 0x7fff_ffff_ffff_ffffu64 == 0
}

/// IEEE-754 equality of two binary64 numbers given by their bits: NaN equals
/// nothing, the two zeros are equal, and any other number equals only itself.
pub open spec fn float_bits_eq(a: u64, b: u64) -> bool {
    &&& !is_nan_bits(a)
    &&& !is_nan_bits(b)
    &&& (a == b || (is_zero_bits(a) && is_zero_bits(b)))
}

fn float_eq(a: u64, b: u64) -> (r: bool)
    ensures
        r == float_bits_eq(a, b),
{
    let a_nan = a & 0x7ff0_0000_0000_0000u64 == 0x7ff0_0000_0000_0000u64
        && a & 0x000f_ffff_ffff_ffffu64 != 0;
    let b_nan = b & 0x7ff0_0000_0000_0000u64 == 0x7ff0_0000_0000_0000u64
        && b & 0x000f_ffff_ffff_ffffu64 != 0;
    let both_zero = a & 0x7fff_ffff_ffff_ffffu64 == 0 && b & 0x7fff_ffff_ffff_ffffu64 == 0;
    !a_nan && !b_nan && (a == b || both_zero)
}

impl Value {
    pub open spec fn spec_kind(&self) -> QueueType {
        match self {
            Value::Integer(_) => QueueType::Integer,
            Value::Float(_) => QueueType::Float,
            Value::String(_) => QueueType::String,
            Value::Null => QueueType::Null,
        }
    }

    /// The queue type that this value belongs to.
    #[verifier::when_used_as_spec(spec_kind)]
    pub fn kind(&self) -> (r: QueueType)
        ensures
            r == self.spec_kind(),
    {
        match self {
            Value::Integer(_) => QueueType::Integer,
            Value::Float(_) => QueueType::Float,
            Value::String(_) => QueueType::String,
            Value::Null => QueueType::Null,
        }
    }

}

/// What a value is, with a string as its characters.
pub enum ValueView {
    Integer(i64),
    Float(u64),
    String(Seq<char>),
    Null,
}

impl ValueView {
    pub open spec fn kind(self) -> QueueType {
        match self {
            ValueView::Integer(_) => QueueType::Integer,
            ValueView::Float(_) => QueueType::Float,
            ValueView::String(_) => QueueType::String,
            ValueView::Null => QueueType::Null,
        }
    }

    /// Equality of values: the same variant with equal contents, floats
    /// compared as IEEE-754 numbers.
    pub open spec fn same(self, other: ValueView) -> bool {
        match (self, other) {
            (ValueView::Integer(a), ValueView::Integer(b)) => a == b,
            (ValueView::Float(a), ValueView::Float(b)) => float_bits_eq(a, b),
            (ValueView::String(a), ValueView::String(b)) => a == b,
            (ValueView::Null, ValueView::Null) => true,
            _ => false,
        }
    }
}

impl View for Value {
    type V = ValueView;

    open spec fn view(&self) -> ValueView {
        match self {
            Value::Integer(i) => ValueView::Integer(*i),
            Value::Float(f) => ValueView::Float(*f),
            Value::String(s) => ValueView::String(s@),
            Value::Null => ValueView::Null,
        }
    }
}

/// The views of a sequence of values.
pub open spec fn views(q: Seq<Value>) -> Seq<ValueView> {
    q.map_values(|v: Value| v@)
}

impl Clone for Value {
    fn clone(&self) -> (r: Self)
        ensures
            r == *self,
    {
        match self {
            Value::Integer(i) => Value::Integer(*i),
            Value::Float(f) => Value::Float(*f),
            Value::String(s) => Value::String(s.clone()),
            Value::Null => Value::Null,
        }
    }
}

impl PartialEq for Value {
    fn eq(&self, other: &Value) -> (r: bool) {
        match (self, other) {
            (Value::Integer(a), Value::Integer(b)) => *a == *b,
            (Value::Float(a), Value::Float(b)) => float_eq(*a, *b),
            (Value::String(a), Value::String(b)) => *a == *b,
            (Value::Null, Value::Null) => true,
            _ => false,
        }
    }
}

impl vstd::std_specs::cmp::PartialEqSpecImpl for Value {
    open spec fn obeys_eq_spec() -> bool {
        true
    }

    open spec fn eq_spec(&self, other: &Value) -> bool {
        self@.same(other@)
    }
}

impl From<i64> for Value {
    fn from(item: i64) -> (r: Value) {
        Value::Integer(item)
    }
}

impl vstd::std_specs::convert::FromSpecImpl<i64> for Value {
    open spec fn obeys_from_spec() -> bool {
        true
    }

    open spec fn from_spec(item: i64) -> Value {
        Value::Integer(item)
    }
}

impl From<String> for Value {
    fn from(item: String) -> (r: Value) {
        Value::String(item)
    }
}

impl vstd::std_specs::convert::FromSpecImpl<String> for Value {
    open spec fn obeys_from_spec() -> bool {
        true
    }

    open spec fn from_spec(item: String) -> Value {
        Value::String(item)
    }
}

/// The name of a queue. Two identifiers name the same queue exactly when
/// their strings are equal.
#[derive(Debug, Hash)]
pub struct Identifier(pub String);

impl View for Identifier {
    type V = Seq<char>;

    open spec fn view(&self) -> Seq<char> {
        self.0@
    }
}

impl Clone for Identifier {
    fn clone(&self) -> (r: Self)
        ensures
            r == *self,
    {
        Identifier(self.0.clone())
    }
}

impl PartialEq for Identifier {
    fn eq(&self, other: &Identifier) -> (r: bool) {
        self.0 == other.0
    }
}

impl vstd::std_specs::cmp::PartialEqSpecImpl for Identifier {
    open spec fn obeys_eq_spec() -> bool {
        true
    }

    open spec fn eq_spec(&self, other: &Identifier) -> bool {
        self@ == other@
    }
}

impl Eq for Identifier {}

impl From<&str> for Identifier {
    fn from(v: &str) -> (r: Identifier)
        ensures
            r@ == v@,
    {
        Identifier(v.to_owned())
    }
}

impl vstd::std_specs::convert::FromSpecImpl<&str> for Identifier {
    open spec fn obeys_from_spec() -> bool {
        false
    }

    open spec fn from_spec(v: &str) -> Identifier {
        arbitrary()
    }
}

impl From<String> for Identifier {
    fn from(v: String) -> (r: Identifier) {
        Identifier(v)
    }
}

impl vstd::std_specs::convert::FromSpecImpl<String> for Identifier {
    open spec fn obeys_from_spec() -> bool {
        true
    }

    open spec fn from_spec(v: String) -> Identifier {
        Identifier(v)
    }
}

/// What a command is, with names and values as their views.
pub enum CommandView {
    Enqueue(Seq<char>, ValueView),
    Dequeue(Seq<char>),
    Length(Seq<char>),
    Peek(Seq<char>),
    Assert(Box<CommandView>, ValueView),
    AssertError(Box<CommandView>),
    Noop,
}

pub open spec fn command_view(c: Command) -> CommandView
    decreases c,
{
    match c {
        Command::Enqueue(id, v) => CommandView::Enqueue(id@, v@),
        Command::Dequeue(id) => CommandView::Dequeue(id@),
        Command::Length(id) => CommandView::Length(id@),
        Command::Peek(id) => CommandView::Peek(id@),
        Command::Assert(c, v) => CommandView::Assert(Box::new(command_view(*c)), v@),
        Command::AssertError(c) => CommandView::AssertError(Box::new(command_view(*c))),
        Command::Noop => CommandView::Noop,
    }
}

impl View for Command {
    type V = CommandView;

    open spec fn view(&self) -> CommandView {
        command_view(*self)
    }
}

/// A command of the queue language: a tree whose `Assert` and `AssertError`
/// nodes own the command they check.
#[derive(Debug)]
pub enum Command {
    Enqueue(Identifier, Value),
    Dequeue(Identifier),
    Length(Identifier),
    Peek(Identifier),
    Assert(Box<Command>, Value),
    AssertError(Box<Command>),
    Noop,
}

impl Clone for Command {
    fn clone(&self) -> (r: Self)
        ensures
            r == *self,
        decreases self,
    {
        match self {
            Command::Enqueue(id, v) => Command::Enqueue(id.clone(), v.clone()),
            Command::Dequeue(id) => Command::Dequeue(id.clone()),
            Command::Length(id) => Command::Length(id.clone()),
            Command::Peek(id) => Command::Peek(id.clone()),
            Command::Assert(c, v) => Command::Assert(Box::new((**c).clone()), v.clone()),
            Command::AssertError(c) => Command::AssertError(Box::new((**c).clone())),
            Command::Noop => Command::Noop,
        }
    }
}

/// Equality of commands: the same shape, with equal names and values.
pub open spec fn command_same(a: CommandView, b: CommandView) -> bool
    decreases a,
{
    match (a, b) {
        (CommandView::Enqueue(i, v), CommandView::Enqueue(j, w)) => i == j && v.same(w),
        (CommandView::Dequeue(i), CommandView::Dequeue(j)) => i == j,
        (CommandView::Length(i), CommandView::Length(j)) => i == j,
        (CommandView::Peek(i), CommandView::Peek(j)) => i == j,
        (CommandView::Assert(c, v), CommandView::Assert(d, w)) => command_same(*c, *d) && v.same(w),
        (CommandView::AssertError(c), CommandView::AssertError(d)) => command_same(*c, *d),
        (CommandView::Noop, CommandView::Noop) => true,
        _ => false,
    }
}

impl Command {
    fn same_as(&self, other: &Command) -> (r: bool)
        ensures
            r == command_same(self@, other@),
        decreases self,
    {
        match (self, other) {
            (Command::Enqueue(i, v), Command::Enqueue(j, w)) => i.0 == j.0 && v.eq(w),
            (Command::Dequeue(i), Command::Dequeue(j)) => i.0 == j.0,
            (Command::Length(i), Command::Length(j)) => i.0 == j.0,
            (Command::Peek(i), Command::Peek(j)) => i.0 == j.0,
            (Command::Assert(c, v), Command::Assert(d, w)) => (**c).same_as(&**d) && v.eq(w),
            (Command::AssertError(c), Command::AssertError(d)) => (**c).same_as(&**d),
            (Command::Noop, Command::Noop) => true,
            _ => false,
        }
    }
}

impl PartialEq for Command {
    fn eq(&self, other: &Command) -> (r: bool) {
        self.same_as(other)
    }
}

impl vstd::std_specs::cmp::PartialEqSpecImpl for Command {
    open spec fn obeys_eq_spec() -> bool {
        true
    }

    open spec fn eq_spec(&self, other: &Command) -> bool {
        command_same(self@, other@)
    }
}

impl Command {
    pub fn enqueue(id: &str, v: Value) -> (r: Command)
        ensures
            r@ == CommandView::Enqueue(id@, v@),
    {
        Command::Enqueue(Identifier(id.to_owned()), v)
    }

    pub fn dequeue(id: &str) -> (r: Command)
        ensures
            r@ == CommandView::Dequeue(id@),
    {
        Command::Dequeue(Identifier(id.to_owned()))
    }

    pub fn peek(id: &str) -> (r: Command)
        ensures
            r@ == CommandView::Peek(id@),
    {
        Command::Peek(Identifier(id.to_owned()))
    }

    pub fn length(id: &str) -> (r: Command)
        ensures
            r@ == CommandView::Length(id@),
    {
        Command::Length(Identifier(id.to_owned()))
    }
}

} // verus!
