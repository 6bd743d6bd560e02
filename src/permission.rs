use vstd::prelude::*;
use vstd::string::StringSliceAdditionalSpecFns;
use vstd::utf8::encode_utf8;

verus! {

/// Why the authorization service refused a permission name.
#[derive(Clone, Debug)]
pub enum AdminAuthError {
    InvalidPermissionFormat { permission: String },
}

/// A byte allowed in a permission name: an upper-case ASCII letter, a digit,
/// or `_`.
pub open spec fn is_permission_byte(b: u8) -> bool {
    (65 <= b <= 90) || (48 <= b <= 57) || b == 95
}

/// A permission name is more than ten bytes long and uses only the allowed
/// bytes.
pub open spec fn is_permission_format(bytes: Seq<u8>) -> bool {
    bytes.len() > 10 && forall|i: int| 0 <= i < bytes.len() ==> is_permission_byte(#[trigger] bytes[i])
}

/// Checks the format of a permission name.
pub fn is_valid_permission(permission: &str) -> (r: Result<(), AdminAuthError>)
    ensures
        r is Ok <==> is_permission_format(permission.spec_bytes()),
        r matches Err(AdminAuthError::InvalidPermissionFormat { permission: p }) ==> p@ == permission@,
{
    let bytes = permission.as_bytes();
    if bytes.len() <= 10 {
        return Err(AdminAuthError::InvalidPermissionFormat { permission: permission.to_owned() });
    }
    let mut i: usize = 0;
    while i < bytes.len()
        invariant
            i <= bytes.len(),
            bytes@ == permission.spec_bytes(),
            forall|j: int| 0 <= j < i ==> is_permission_byte(#[trigger] bytes@[j]),
        decreases bytes.len() - i,
    {
        let b = bytes[i];
        if !((65u8 <= b && b <= 90u8) || (48u8 <= b && b <= 57u8) || b == 95u8) {
            return Err(AdminAuthError::InvalidPermissionFormat { permission: permission.to_owned() });
        }
        i = i + 1;
    }
    Ok(())
}

/// Checks the format of every permission name; the error names the first
/// one that is refused.
pub fn validate_permissions(permissions: &[String]) -> (r: Result<(), AdminAuthError>)
    ensures
        r is Ok <==> forall|i: int| 0 <= i < permissions@.len() ==> is_permission_format(encode_utf8(#[trigger] permissions@[i]@)),
        r matches Err(AdminAuthError::InvalidPermissionFormat { permission: p }) ==> exists|i: int|
            0 <= i < permissions@.len() && #[trigger] permissions@[i]@ == p@ && !is_permission_format(encode_utf8(p@))
                && forall|j: int| 0 <= j < i ==> is_permission_format(encode_utf8(#[trigger] permissions@[j]@)),
{
    let mut i: usize = 0;
    while i < permissions.len()
        invariant
            i <= permissions@.len(),
            forall|j: int| 0 <= j < i ==> is_permission_format(encode_utf8(#[trigger] permissions@[j]@)),
        decreases permissions@.len() - i,
    {
        match is_valid_permission(permissions[i].as_str()) {
            Ok(()) => {},
            Err(e) => {
                return Err(e);
            },
        }
        i = i + 1;
    }
    Ok(())
}

} // verus!
