//! File descriptions: the schema files that a request speaks of.

use prost_types::FileDescriptorProto;
use vstd::prelude::*;

verus! {

/// The descriptor of one schema file, as `prost_types` defines it. Nothing
/// is known of its contents here: it is carried along unread.
#[verifier::external_type_specification]
#[verifier::external_body]
pub struct ExFileDescriptorProto(prost_types::FileDescriptorProto);

/// One schema file: the name by which other files refer to it, the package
/// that it declares, and its full descriptor.
#[derive(Debug, PartialEq)]
pub struct FileDescription {
    name: String,
    package: String,
    descriptor: FileDescriptorProto,
}

/// What a file description holds.
pub struct FileDescriptionView {
    /// The name of the file.
    pub name: Seq<char>,
    /// The package that the file declares; empty when it declares none.
    pub package: Seq<char>,
    /// The descriptor of the file.
    pub descriptor: FileDescriptorProto,
}

impl View for FileDescription {
    type V = FileDescriptionView;

    /// The name, the package and the descriptor of the file.
    closed spec fn view(&self) -> FileDescriptionView {
        FileDescriptionView {
            name: self.name@,
            package: self.package@,
            descriptor: self.descriptor,
        }
    }
}

/// The views of a list of file descriptions.
pub open spec fn file_views(files: Seq<FileDescription>) -> Seq<FileDescriptionView> {
    files.map_values(|file: FileDescription| file@)
}

impl FileDescription {
    /// Describes a file by its name, its package and its descriptor.
    pub fn new(name: String, package: String, descriptor: FileDescriptorProto) -> (file:
        FileDescription)
        ensures
            file@ == (FileDescriptionView { name: name@, package: package@, descriptor }),
    {
        FileDescription { name, package, descriptor }
    }

    /// The name of the file.
    pub fn name(&self) -> (name: &str)
        ensures
            name@ == self@.name,
    {
        self.name.as_str()
    }

    /// The package that the file declares; empty when it declares none.
    pub fn package(&self) -> (package: &str)
        ensures
            package@ == self@.package,
    {
        self.package.as_str()
    }

    /// The descriptor of the file.
    pub fn descriptor(&self) -> (descriptor: &FileDescriptorProto)
        ensures
            *descriptor == self@.descriptor,
    {
        &self.descriptor
    }
}

} // verus!
