//! Device identity: the closed set of device classes and the identifying
//! data of one backlight or LED.
use vstd::prelude::*;

verus! {

/// The two device classes the tool works with.
#[derive(Clone, Copy, Debug, PartialEq, Eq, Structural)]
pub enum Class {
    Backlight,
    Leds,
}

/// The fixed directory name a class maps to under the device-class tree.
pub open spec fn class_dir_spec(c: Class) -> Seq<char> {
    match c {
        Class::Backlight => "backlight"@,
        Class::Leds => "leds"@,
    }
}

impl Class {
    /// The class's directory name: `backlight` or `leds`. Used both for
    /// path construction and for selector text.
    pub fn dir_name(&self) -> (r: &'static str)
        ensures
            r@ == class_dir_spec(*self),
    {
        match self {
            Class::Backlight => "backlight",
            Class::Leds => "leds",
        }
    }
}

/// The identifying data of a device, over character sequences.
#[verifier::ext_equal]
pub ghost struct DeviceView {
    pub class: Class,
    pub name: Seq<char>,
    pub real_name: Option<Seq<char>>,
}

impl DeviceView {
    /// The on-disk name the device resolves to: the alias target when
    /// present, else the name itself.
    pub open spec fn resolved(self) -> Seq<char> {
        match self.real_name {
            Some(n) => n,
            None => self.name,
        }
    }

    /// A device carries an alias target exactly when it is the
    /// synthetic `auto` device.
    pub open spec fn wf(self) -> bool {
        (self.name == "auto"@) <==> (self.real_name is Some)
    }
}

/// One physical backlight or LED: its class and its logical name, plus,
/// for the synthetic `auto` alias only, the on-disk name the alias
/// resolves to. A device owns no resources and is immutable once
/// constructed.
#[derive(Debug)]
pub struct Device {
    pub class: Class,
    pub name: String,
    pub real_name: Option<String>,
}

impl View for Device {
    type V = DeviceView;

    open spec fn view(&self) -> DeviceView {
        DeviceView {
            class: self.class,
            name: self.name@,
            real_name: match self.real_name {
                Some(s) => Some(s@),
                None => None,
            },
        }
    }
}

impl Clone for Device {
    /// A clone carries the same identifying data.
    fn clone(&self) -> (r: Self)
        ensures
            r@ == self@,
    {
        let r = Device {
            class: self.class,
            name: self.name.clone(),
            real_name: match &self.real_name {
                Some(s) => Some(s.clone()),
                None => None,
            },
        };
        proof {
            assert(r@ =~= self@);
        }
        r
    }
}

/// The attribute file of a device under the device-class tree:
/// `/sys/class/<class>/<resolved name>/<attribute>`.
pub open spec fn attr_path_spec(d: DeviceView, attr: Seq<char>) -> Seq<char> {
    "/sys/class/"@ + class_dir_spec(d.class) + "/"@ + d.resolved() + "/"@ + attr
}

/// Relies on `String::push_str`: appends the slice's characters to the
/// string.
#[verifier::external_body]
fn push_str(s: &mut String, t: &str)
    ensures
        final(s)@ == old(s)@ + t@,
{
    s.push_str(t)
}

impl Device {
    /// The on-disk name reads and writes go to: the alias target when
    /// present, else the device's own name.
    pub fn resolved_name(&self) -> (r: &String)
        ensures
            r@ == self@.resolved(),
    {
        match &self.real_name {
            Some(n) => n,
            None => &self.name,
        }
    }

    fn attr_path(&self, attr: &str) -> (r: String)
        ensures
            r@ == attr_path_spec(self@, attr@),
    {
        let mut r = String::new();
        push_str(&mut r, "/sys/class/");
        push_str(&mut r, self.class.dir_name());
        push_str(&mut r, "/");
        push_str(&mut r, self.resolved_name().as_str());
        push_str(&mut r, "/");
        push_str(&mut r, attr);
        proof {
            assert(r@ =~= attr_path_spec(self@, attr@));
        }
        r
    }

    /// Where this device's current brightness is read.
    pub fn brightness_path(&self) -> (r: String)
        ensures
            r@ == attr_path_spec(self@, "brightness"@),
    {
        self.attr_path("brightness")
    }

    /// Where this device's maximum brightness is read.
    pub fn max_brightness_path(&self) -> (r: String)
        ensures
            r@ == attr_path_spec(self@, "max_brightness"@),
    {
        self.attr_path("max_brightness")
    }
}

} // verus!
