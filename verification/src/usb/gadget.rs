//! Gadgets and the controller that they are bound to.
//!
//! A gadget is enabled by writing the controller's name into its controller file, and
//! disabled by writing an empty line.
use crate::text;
use vstd::prelude::*;

verus! {

/// Where gadgets may be, the first that exists counts.
pub const CONFIGFS_CANDIDATES: [&'static str; 2] = [
    "/config/usb_gadget",
    "/sys/kernel/config/usb_gadget",
];

/// Where controllers are.
pub const UDC_DIR: &'static str = "/sys/class/udc";

/// Whether `c` is a blank or ends a line.
pub open spec fn blank(c: char) -> bool {
    c == '\n' || c == '\r' || c == ' '
}

/// `s` without the blanks at its end.
pub open spec fn without_blanks(s: Seq<char>) -> Seq<char>
    decreases s.len(),
{
    if s.len() > 0 && blank(s.last()) {
        without_blanks(s.drop_last())
    } else {
        s
    }
}

/// The controller that a controller file names, if it names one.
pub open spec fn named(content: Seq<char>) -> Option<Seq<char>> {
    if without_blanks(content).len() == 0 {
        None
    } else {
        Some(without_blanks(content))
    }
}

/// The controller that a controller file names, if it names one.
pub fn read_trimmed(content: &str) -> (r: Option<String>)
    ensures
        match named(content@) {
            Some(name) => r matches Some(s) && s@ == name,
            None => r is None,
        },
{
    let chars: Vec<char> = text::chars_of(content);
    let mut n: usize = chars.len();
    assert(chars@.take(n as int) =~= content@);
    while n > 0 && (chars[n - 1] == '\n' || chars[n - 1] == '\r' || chars[n - 1] == ' ')
        invariant
            n <= chars@.len(),
            chars@ == content@,
            without_blanks(content@) == without_blanks(chars@.take(n as int)),
        decreases n,
    {
        assert(chars@.take(n as int).drop_last() =~= chars@.take(n - 1));
        n -= 1;
    }
    if n == 0 {
        return None;
    }
    let name: &str = content.substring_char(0, n);
    assert(name@ =~= chars@.take(n as int));
    Some(name.to_string())
}

/// What is written into a gadget's controller file to enable it.
pub open spec fn to_enable(content: Seq<char>, udc_name: Seq<char>) -> Option<Seq<char>> {
    if named(content) is None {
        Some(udc_name)
    } else {
        None
    }
}

/// What is written into a gadget's controller file to disable it.
pub open spec fn to_disable(content: Seq<char>) -> Option<Seq<char>> {
    if named(content) is Some {
        Some("\n"@)
    } else {
        None
    }
}

/// A controller file once that is written.
pub open spec fn written(content: Seq<char>, w: Option<Seq<char>>) -> Seq<char> {
    match w {
        Some(s) => s,
        None => content,
    }
}

/// Where gadgets are, and the controller that they are bound to.
#[derive(Debug)]
pub struct UsbGadgetState {
    pub configfs: String,
    pub udc_name: String,
}

impl UsbGadgetState {
    /// The gadgets in a directory, and this controller.
    pub fn with_udc(configfs: &str, udc_name: &str) -> (r: Self)
        ensures
            r.configfs@ == configfs@,
            r.udc_name@ == udc_name@,
    {
        UsbGadgetState { configfs: configfs.to_string(), udc_name: udc_name.to_string() }
    }

    /// What to write into a gadget's controller file to enable it: the controller,
    /// unless the file names one already.
    pub fn enable(&self, content: &str) -> (r: Option<String>)
        ensures
            match to_enable(content@, self.udc_name@) {
                Some(w) => r matches Some(s) && s@ == w,
                None => r is None,
            },
    {
        match read_trimmed(content) {
            Some(_) => None,
            None => Some(self.udc_name.as_str().to_string()),
        }
    }

    /// What to write into a gadget's controller file to disable it: an empty line,
    /// unless the file names none.
    pub fn disable(&self, content: &str) -> (r: Option<String>)
        ensures
            match to_disable(content@) {
                Some(w) => r matches Some(s) && s@ == w,
                None => r is None,
            },
    {
        match read_trimmed(content) {
            Some(_) => Some("\n".to_string()),
            None => None,
        }
    }

    /// The controller file of a gadget.
    pub fn gadget_udc_path(&self, gadget_name: &str) -> (r: String)
        ensures
            r@ == self.configfs@ + "/"@ + gadget_name@ + "/UDC"@,
    {
        let mut path: String = self.configfs.as_str().to_string();
        path.append("/");
        path.append(gadget_name);
        path.append("/UDC");
        path
    }
}

/// The gadgets that are switched between.
pub const GADGETS: [&'static str; 2] = ["default", "accessory"];

/// Whatever a controller file holds: a gadget that was enabled names a controller, and
/// nothing is written to enable it again; one that was disabled names none, nothing is
/// written to disable it again, and it can be enabled.
pub proof fn lemma_switching(content: Seq<char>, udc_name: Seq<char>)
    requires
        named(udc_name) is Some,
    ensures
        ({
            let on = written(content, to_enable(content, udc_name));
            let off = written(content, to_disable(content));
            &&& named(on) is Some
            &&& to_enable(on, udc_name) is None
            &&& named(off) is None
            &&& to_disable(off) is None
            &&& to_enable(off, udc_name) == Some(udc_name)
        }),
{
    reveal_strlit("\n");
    assert("\n"@.drop_last() =~= Seq::<char>::empty());
    reveal_with_fuel(without_blanks, 3);
}

/// A controller file names what is in it without the blanks at its end, all of them, and
/// without anything else; it names none exactly where there is nothing but blanks.
pub proof fn lemma_named(content: Seq<char>)
    ensures
        named(content) matches Some(name) ==> {
            &&& 0 < name.len() <= content.len()
            &&& name == content.take(name.len() as int)
            &&& name.last() != '\n' && name.last() != '\r' && name.last() != ' '
            &&& forall|i: int|
                name.len() <= i < content.len() ==> #[trigger] content[i] == '\n' || content[i]
                    == '\r' || content[i] == ' '
        },
        named(content) is None ==> forall|i: int|
            0 <= i < content.len() ==> #[trigger] content[i] == '\n' || content[i] == '\r'
                || content[i] == ' ',
    decreases content.len(),
{
    if content.len() > 0 && blank(content.last()) {
        let t = content.drop_last();
        lemma_named(t);
        if let Some(name) = named(t) {
            assert(t.take(name.len() as int) =~= content.take(name.len() as int));
        }
        assert forall|i: int|
            without_blanks(content).len() <= i < content.len() implies #[trigger] content[i] == '\n'
            || content[i] == '\r' || content[i] == ' ' by {
            if i < t.len() {
                assert(content[i] == t[i]);
            }
        }
    } else {
        assert(content.take(content.len() as int) =~= content);
    }
}

/// To enable a gadget its controller is written exactly where the file names none; to
/// disable it an empty line is written exactly where the file names one.
pub proof fn lemma_what_is_written(content: Seq<char>, udc_name: Seq<char>)
    ensures
        named(content) is None ==> to_enable(content, udc_name) == Some(udc_name),
        named(content) is Some ==> to_enable(content, udc_name) is None,
        named(content) is Some ==> to_disable(content) == Some(seq!['\n']),
        named(content) is None ==> to_disable(content) is None,
{
    reveal_strlit("\n");
    assert("\n"@ =~= seq!['\n']);
}

} // verus!
