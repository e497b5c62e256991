pub mod device_list;
pub mod device_list_xml;
pub mod devices;
pub mod encoding;
pub mod modbus_connection;
pub mod observable_array;
pub mod presentation;
pub mod range_array;
pub mod register_value;
pub mod tag_list;
pub mod tag_list_xml;
pub mod tag_ranges;
pub mod tags;
pub mod ws_bridge;
pub mod xml_common;
